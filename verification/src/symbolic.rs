//! Symbolic expression reconstruction.
//!
//! A diagnostic facility: rebuild, for any storage local, an expression
//! tree over arguments and constants by recursively resolving its
//! defining operation in the constraint graph.  A local that depends on
//! itself yields a cyclic-dependency sentinel instead of recursing
//! forever; the in-progress set is carried explicitly, so the recursion
//! is bounded by the number of locals.

use vstd::prelude::*;

use crate::constraints::{BasicOp, ConstraintGraph, IntervalConstraint, spec_phi_count};
use crate::dataflow::{count_false, lemma_count_false_update};
use crate::ir::{BinOp, UnOp};

verus! {

/// Why an expression could not be resolved.
#[derive(Debug, Clone, Copy, PartialEq, Eq)]
pub enum UnknownReason {
    /// The local depends on itself.
    CyclicDependency,
    /// A construct the reconstruction does not model.
    Unsupported,
    /// A malformed operation.
    CannotParse,
}

/// An expression tree over a function's arguments and constants.
#[derive(Debug, PartialEq, Eq)]
pub enum SymbolicExpr {
    /// An argument or otherwise free local.
    Argument(usize),
    /// A constant value.
    Constant(i64),
    /// A binary operation.
    BinaryOp { op: BinOp, left: Box<SymbolicExpr>, right: Box<SymbolicExpr> },
    /// A unary operation.
    UnaryOp { op: UnOp, operand: Box<SymbolicExpr> },
    /// A merge of several renamed copies.
    Ssa(Vec<SymbolicExpr>),
    /// A branch-refined copy, constrained against `bound` under `op`.
    Essa { operand: Box<SymbolicExpr>, bound: usize, op: BinOp },
    /// Not resolvable.
    Unknown(UnknownReason),
}

/// The reconstruction relation: `e` is exactly the expression the
/// rebuild computes for `place` under the visited set `vis`, given
/// enough `fuel` (one more than the unvisited count always suffices;
/// at zero fuel the relation says nothing).
pub open spec fn spec_expr_matches(
    g: ConstraintGraph,
    place: int,
    vis: Seq<bool>,
    e: SymbolicExpr,
    fuel: int,
) -> bool
    decreases fuel, 0int,
{
    if fuel <= 0 || !(0 <= place < vis.len()) {
        true
    } else if vis[place] {
        e == SymbolicExpr::Unknown(UnknownReason::CyclicDependency)
    } else {
        match g.defmap@[place] {
            Option::Some(op_idx) => spec_op_matches(
                g,
                op_idx as int,
                vis.update(place, true),
                e,
                fuel - 1,
            ),
            Option::None => if place > 0 {
                e == SymbolicExpr::Argument(place as usize)
            } else {
                e == SymbolicExpr::Unknown(UnknownReason::CannotParse)
            },
        }
    }
}

/// The reconstruction relation at one operation: `e` is exactly what
/// resolving the operation's sources yields.
pub open spec fn spec_op_matches(
    g: ConstraintGraph,
    op_idx: int,
    vis: Seq<bool>,
    e: SymbolicExpr,
    fuel: int,
) -> bool
    decreases fuel, 1int,
{
    if fuel <= 0 || !(0 <= op_idx < g.oprs@.len()) {
        true
    } else {
        match g.oprs@[op_idx] {
            BasicOp::Binary { src1, const1, src2, const2, op: bop, .. } => match (src1, const1) {
                (Option::None, Option::None) => e == SymbolicExpr::Unknown(
                    UnknownReason::CannotParse,
                ),
                _ => match (src2, const2) {
                    (Option::None, Option::None) => e == SymbolicExpr::Unknown(
                        UnknownReason::CannotParse,
                    ),
                    _ => match e {
                        SymbolicExpr::BinaryOp { op: eop, left, right } => eop == bop && (match src1 {
                            Option::Some(v1) => spec_expr_matches(g, v1 as int, vis, *left, fuel),
                            Option::None => *left == SymbolicExpr::Constant(const1.unwrap()),
                        }) && (match src2 {
                            Option::Some(v2) => spec_expr_matches(g, v2 as int, vis, *right, fuel),
                            Option::None => *right == SymbolicExpr::Constant(const2.unwrap()),
                        }),
                        _ => false,
                    },
                },
            },
            BasicOp::Unary { source, op: uop, .. } => match e {
                SymbolicExpr::UnaryOp { op: eop, operand } => eop == uop && spec_expr_matches(
                    g,
                    source as int,
                    vis,
                    *operand,
                    fuel,
                ),
                _ => false,
            },
            BasicOp::Phi { sources, .. } => match e {
                SymbolicExpr::Ssa(parts) => parts@.len() == sources@.len() && (forall|k: int|
                    0 <= k < sources@.len() ==> spec_expr_matches(
                        g,
                        sources@[k] as int,
                        vis,
                        #[trigger] parts@[k],
                        fuel,
                    )),
                _ => false,
            },
            BasicOp::Essa { source, intersect, .. } => match intersect {
                IntervalConstraint::Symb { bound, op: sop } => match e {
                    SymbolicExpr::Essa { operand, bound: eb, op: eo } => eb == bound && eo == sop
                        && spec_expr_matches(g, source as int, vis, *operand, fuel),
                    _ => false,
                },
                IntervalConstraint::Basic(_) => e == SymbolicExpr::Unknown(
                    UnknownReason::CannotParse,
                ),
            },
            BasicOp::Use { source, constv, .. } => match source {
                Option::Some(v) => spec_expr_matches(g, v as int, vis, e, fuel),
                Option::None => match constv {
                    Option::Some(c) => e == SymbolicExpr::Constant(c),
                    Option::None => e == SymbolicExpr::Unknown(UnknownReason::CannotParse),
                },
            },
            BasicOp::ControlDep { .. } => e == SymbolicExpr::Unknown(UnknownReason::CannotParse),
        }
    }
}

/// A sequence of `false` flags has as many `false` entries as places.
proof fn lemma_count_false_all(s: Seq<bool>)
    requires
        forall|t: int| 0 <= t < s.len() ==> !(#[trigger] s[t]),
    ensures
        count_false(s) == s.len(),
    decreases s.len(),
{
    if s.len() > 0 {
        lemma_count_false_all(s.drop_last());
    }
}

impl ConstraintGraph {
    /// Rebuild the expression for `place`.  A local without a defining
    /// operation (other than the return slot) reads as an argument; a
    /// cyclic dependency yields the sentinel.
    pub fn get_symbolicexpression(&self, place: usize) -> (r: Option<SymbolicExpr>)
        requires
            self.wf(),
            place < self.n(),
        ensures
            r is Some,
            self.defmap@[place as int] is None && place > 0 ==> r == Option::Some(
                SymbolicExpr::Argument(place),
            ),
            self.defmap@[place as int] is None && place == 0 ==> r == Option::Some(
                SymbolicExpr::Unknown(UnknownReason::CannotParse),
            ),
            // The returned tree is exactly the reconstruction over the
            // definition map and operations, starting unvisited.
            spec_expr_matches(
                *self,
                place as int,
                Seq::new(self.n() as nat, |i: int| false),
                r.unwrap(),
                self.n() + 1,
            ),
    {
        let mut in_progress: Vec<bool> = Vec::new();
        let mut i: usize = 0;
        let n = self.vars.len();
        while i < n
            invariant
                i <= n,
                in_progress@.len() == i,
                forall|t: int| 0 <= t < i ==> !(#[trigger] in_progress@[t]),
            decreases n - i,
        {
            in_progress.push(false);
            i = i + 1;
        }
        proof {
            assert(in_progress@ =~= Seq::new(self.n() as nat, |i: int| false));
            lemma_count_false_all(in_progress@);
        }
        let r = self.expr_of(place, &mut in_progress);
        r
    }

    /// Resolve one local: consult its defining operation, detecting
    /// cycles through the in-progress set.
    fn expr_of(&self, place: usize, in_progress: &mut Vec<bool>) -> (r: Option<SymbolicExpr>)
        requires
            self.wf(),
            place < self.n(),
            old(in_progress)@.len() == self.n(),
        ensures
            final(in_progress)@ == old(in_progress)@,
            r is Some,
            old(in_progress)@[place as int] ==> r == Option::Some(
                SymbolicExpr::Unknown(UnknownReason::CyclicDependency),
            ),
            !old(in_progress)@[place as int] && self.defmap@[place as int] is None && place > 0
                ==> r == Option::Some(SymbolicExpr::Argument(place)),
            !old(in_progress)@[place as int] && self.defmap@[place as int] is None && place == 0
                ==> r == Option::Some(SymbolicExpr::Unknown(UnknownReason::CannotParse)),
            spec_expr_matches(
                *self,
                place as int,
                old(in_progress)@,
                r.unwrap(),
                count_false(old(in_progress)@) as int + 1,
            ),
        decreases count_false(in_progress@), 0int,
    {
        if in_progress[place] {
            return Option::Some(SymbolicExpr::Unknown(UnknownReason::CyclicDependency));
        }
        proof {
            lemma_count_false_update(in_progress@, place as int);
        }
        let ghost before = in_progress@;
        in_progress.set(place, true);
        let result: Option<SymbolicExpr> = match self.defmap[place] {
            Option::Some(op_idx) => self.op_expr(op_idx, in_progress),
            Option::None => {
                if place > 0 {
                    Option::Some(SymbolicExpr::Argument(place))
                } else {
                    Option::Some(SymbolicExpr::Unknown(UnknownReason::CannotParse))
                }
            },
        };
        in_progress.set(place, false);
        proof {
            assert(in_progress@ =~= before);
            assert(spec_expr_matches(
                *self,
                place as int,
                before,
                result.unwrap(),
                count_false(before) as int + 1,
            ));
        }
        result
    }

    /// Resolve the sources of one operation into an expression.
    fn op_expr(&self, op_idx: usize, in_progress: &mut Vec<bool>) -> (r: Option<SymbolicExpr>)
        requires
            self.wf(),
            op_idx < self.oprs@.len(),
            old(in_progress)@.len() == self.n(),
        ensures
            final(in_progress)@ == old(in_progress)@,
            r is Some,
            ({
                let op = self.oprs@[op_idx as int];
                op is Use && op->Use_source is None && op->Use_constv is Some ==> r
                    == Option::Some(SymbolicExpr::Constant(op->Use_constv.unwrap()))
            }),
            spec_op_matches(
                *self,
                op_idx as int,
                old(in_progress)@,
                r.unwrap(),
                count_false(old(in_progress)@) as int + 1,
            ),
        decreases count_false(in_progress@), 1int,
    {
        proof {
            assert(self.oprs@[op_idx as int].bounded(self.n()));
        }
        match &self.oprs[op_idx] {
            BasicOp::Binary { src1, const1, src2, const2, op, .. } => {
                let left: SymbolicExpr = match src1 {
                    Option::Some(v) => {
                        match self.expr_of(*v, in_progress) {
                            Option::Some(e) => e,
                            Option::None => {
                                return Option::Some(
                                    SymbolicExpr::Unknown(UnknownReason::CannotParse),
                                );
                            },
                        }
                    },
                    Option::None => match const1 {
                        Option::Some(c) => SymbolicExpr::Constant(*c),
                        Option::None => {
                            return Option::Some(SymbolicExpr::Unknown(UnknownReason::CannotParse));
                        },
                    },
                };
                let right: SymbolicExpr = match src2 {
                    Option::Some(v) => {
                        match self.expr_of(*v, in_progress) {
                            Option::Some(e) => e,
                            Option::None => {
                                return Option::Some(
                                    SymbolicExpr::Unknown(UnknownReason::CannotParse),
                                );
                            },
                        }
                    },
                    Option::None => match const2 {
                        Option::Some(c) => SymbolicExpr::Constant(*c),
                        Option::None => {
                            return Option::Some(SymbolicExpr::Unknown(UnknownReason::CannotParse));
                        },
                    },
                };
                Option::Some(
                    SymbolicExpr::BinaryOp { op: *op, left: Box::new(left), right: Box::new(right) },
                )
            },
            BasicOp::Unary { source, op, .. } => {
                match self.expr_of(*source, in_progress) {
                    Option::Some(e) => Option::Some(
                        SymbolicExpr::UnaryOp { op: *op, operand: Box::new(e) },
                    ),
                    Option::None => Option::Some(SymbolicExpr::Unknown(UnknownReason::CannotParse)),
                }
            },
            BasicOp::Phi { .. } => {
                let cnt = self.phi_source_count(op_idx);
                let mut parts: Vec<SymbolicExpr> = Vec::new();
                let mut k: usize = 0;
                while k < cnt
                    invariant
                        self.wf(),
                        op_idx < self.oprs@.len(),
                        cnt == spec_phi_count(self.oprs@[op_idx as int]),
                        in_progress@.len() == self.n(),
                        in_progress@ == old(in_progress)@,
                        k <= cnt,
                        parts@.len() == k,
                        forall|t: int|
                            0 <= t < k ==> spec_expr_matches(
                                *self,
                                self.oprs@[op_idx as int]->Phi_sources@[t] as int,
                                old(in_progress)@,
                                #[trigger] parts@[t],
                                count_false(old(in_progress)@) as int + 1,
                            ),
                    decreases cnt - k,
                {
                    let v = self.phi_source(op_idx, k);
                    match self.expr_of(v, in_progress) {
                        Option::Some(e) => parts.push(e),
                        Option::None => {
                            return Option::Some(SymbolicExpr::Unknown(UnknownReason::CannotParse));
                        },
                    }
                    k = k + 1;
                }
                Option::Some(SymbolicExpr::Ssa(parts))
            },
            BasicOp::Essa { source, intersect, .. } => {
                let operand = match self.expr_of(*source, in_progress) {
                    Option::Some(e) => e,
                    Option::None => {
                        return Option::Some(SymbolicExpr::Unknown(UnknownReason::CannotParse));
                    },
                };
                match intersect {
                    IntervalConstraint::Symb { bound, op } => Option::Some(
                        SymbolicExpr::Essa { operand: Box::new(operand), bound: *bound, op: *op },
                    ),
                    IntervalConstraint::Basic(_) => Option::Some(
                        SymbolicExpr::Unknown(UnknownReason::CannotParse),
                    ),
                }
            },
            BasicOp::Use { source, constv, .. } => {
                match source {
                    Option::Some(v) => self.expr_of(*v, in_progress),
                    Option::None => match constv {
                        Option::Some(c) => Option::Some(SymbolicExpr::Constant(*c)),
                        Option::None => Option::Some(
                            SymbolicExpr::Unknown(UnknownReason::CannotParse),
                        ),
                    },
                }
            },
            BasicOp::ControlDep { .. } => Option::Some(
                SymbolicExpr::Unknown(UnknownReason::CannotParse),
            ),
        }
    }
}

} // verus!
