//! Closed integer intervals with saturating endpoint arithmetic.
//!
//! A range is `[lower, upper]` tagged `Regular`, `Unknown` (no bound
//! guarantees yet) or `Empty`.  Endpoint arithmetic saturates at the
//! representable minimum and maximum; comparison-derived ranges follow a
//! total table over the six comparison operators, both branches, and
//! both constant positions.

use vstd::prelude::*;

use crate::ir::BinOp;

verus! {

/// The tag of a range.
#[derive(Debug, Clone, Copy, PartialEq, Eq)]
pub enum RangeType {
    /// Carries no bound guarantee yet.
    Unknown,
    /// An ordinary interval with `lower <= upper`.
    Regular,
    /// No values.
    Empty,
}

/// A closed interval over 64-bit integers.
#[derive(Debug, Clone, Copy, PartialEq, Eq)]
pub struct Range {
    pub lower: i64,
    pub upper: i64,
    pub rtype: RangeType,
}

impl Range {
    /// Build a range.
    pub fn new(lower: i64, upper: i64, rtype: RangeType) -> (r: Range)
        ensures
            r == (Range { lower, upper, rtype }),
    {
        Range { lower, upper, rtype }
    }

    /// The full range of the type, still unresolved.
    pub fn full_unknown() -> (r: Range)
        ensures
            r == (Range { lower: i64::MIN, upper: i64::MAX, rtype: RangeType::Unknown }),
    {
        Range { lower: i64::MIN, upper: i64::MAX, rtype: RangeType::Unknown }
    }

    /// The full range of the type, resolved.
    pub fn full_regular() -> (r: Range)
        ensures
            r == (Range { lower: i64::MIN, upper: i64::MAX, rtype: RangeType::Regular }),
    {
        Range { lower: i64::MIN, upper: i64::MAX, rtype: RangeType::Regular }
    }

    /// Does the range carry no bound guarantee?
    pub fn is_unknown(&self) -> (r: bool)
        ensures
            r == (self.rtype is Unknown),
    {
        matches!(self.rtype, RangeType::Unknown)
    }

    /// Is the range an ordinary interval?
    pub fn is_regular(&self) -> (r: bool)
        ensures
            r == (self.rtype is Regular),
    {
        matches!(self.rtype, RangeType::Regular)
    }

    /// Is the range empty?
    pub fn is_empty(&self) -> (r: bool)
        ensures
            r == (self.rtype is Empty),
    {
        matches!(self.rtype, RangeType::Empty)
    }

    /// Mark the range resolved.
    pub fn set_regular(&mut self)
        ensures
            *final(self) == (Range {
                lower: old(self).lower,
                upper: old(self).upper,
                rtype: RangeType::Regular,
            }),
    {
        self.rtype = RangeType::Regular;
    }

    /// Lower bound.
    pub fn get_lower(&self) -> (r: i64)
        ensures
            r == self.lower,
    {
        self.lower
    }

    /// Upper bound.
    pub fn get_upper(&self) -> (r: i64)
        ensures
            r == self.upper,
    {
        self.upper
    }
}

/// `v` clipped to the representable interval.
pub open spec fn spec_clip(v: int) -> i64 {
    if v < i64::MIN {
        i64::MIN
    } else if v > i64::MAX {
        i64::MAX
    } else {
        v as i64
    }
}

/// Saturating addition.
pub fn sat_add(a: i64, b: i64) -> (r: i64)
    ensures
        r == spec_clip(a + b),
{
    if b > 0 && a > i64::MAX - b {
        i64::MAX
    } else if b < 0 && a < i64::MIN - b {
        i64::MIN
    } else {
        a + b
    }
}

/// Saturating subtraction.
pub fn sat_sub(a: i64, b: i64) -> (r: i64)
    ensures
        r == spec_clip(a - b),
{
    if b < 0 && a > i64::MAX + b {
        i64::MAX
    } else if b > 0 && a < i64::MIN + b {
        i64::MIN
    } else {
        a - b
    }
}

/// Saturating multiplication.
pub fn sat_mul(a: i64, b: i64) -> (r: i64)
    ensures
        r == spec_clip(a * b),
{
    let ghost p = a as int * b as int;
    match a.checked_mul(b) {
        Option::Some(v) => v,
        Option::None => {
            if (a > 0) == (b > 0) {
                proof {
                    assert(a != 0 && b != 0);
                    if a > 0 && b > 0 {
                        assert(p > 0) by (nonlinear_arith)
                            requires
                                a > 0 && b > 0 && p == a as int * b as int,
                        ;
                    } else {
                        assert(p > 0) by (nonlinear_arith)
                            requires
                                a < 0 && b < 0 && p == a as int * b as int,
                        ;
                    }
                }
                i64::MAX
            } else {
                proof {
                    assert(a != 0 && b != 0);
                    if a > 0 {
                        assert(p < 0) by (nonlinear_arith)
                            requires
                                a > 0 && b < 0 && p == a as int * b as int,
                        ;
                    } else {
                        assert(p < 0) by (nonlinear_arith)
                            requires
                                a < 0 && b > 0 && p == a as int * b as int,
                        ;
                    }
                }
                i64::MIN
            }
        },
    }
}

/// The comparison operator as seen from the variable's side: with the
/// constant on the left (`c op v`), the variable satisfies the mirrored
/// comparison (`v op' c`).
pub open spec fn spec_mirror_cmp(op: BinOp) -> BinOp {
    match op {
        BinOp::Lt => BinOp::Gt,
        BinOp::Le => BinOp::Ge,
        BinOp::Gt => BinOp::Lt,
        BinOp::Ge => BinOp::Le,
        other => other,
    }
}

/// The range of the variable when `variable cmp constant` holds (the
/// true branch) or fails (the false branch): the exact split for each
/// of the six comparison operators, with saturating endpoints.
pub open spec fn spec_cmp_split(constant: i64, cmp: BinOp, holds: bool) -> Range {
    match cmp {
        BinOp::Lt => if holds {
            Range { lower: i64::MIN, upper: spec_clip(constant - 1), rtype: RangeType::Unknown }
        } else {
            Range { lower: constant, upper: i64::MAX, rtype: RangeType::Unknown }
        },
        BinOp::Le => if holds {
            Range { lower: i64::MIN, upper: constant, rtype: RangeType::Unknown }
        } else {
            Range { lower: spec_clip(constant + 1), upper: i64::MAX, rtype: RangeType::Unknown }
        },
        BinOp::Gt => if holds {
            Range { lower: spec_clip(constant + 1), upper: i64::MAX, rtype: RangeType::Unknown }
        } else {
            Range { lower: i64::MIN, upper: constant, rtype: RangeType::Unknown }
        },
        BinOp::Ge => if holds {
            Range { lower: constant, upper: i64::MAX, rtype: RangeType::Unknown }
        } else {
            Range { lower: i64::MIN, upper: spec_clip(constant - 1), rtype: RangeType::Unknown }
        },
        BinOp::Eq => if holds {
            Range { lower: constant, upper: constant, rtype: RangeType::Unknown }
        } else {
            Range { lower: i64::MIN, upper: i64::MAX, rtype: RangeType::Unknown }
        },
        BinOp::Ne => if holds {
            Range { lower: i64::MIN, upper: i64::MAX, rtype: RangeType::Unknown }
        } else {
            Range { lower: constant, upper: constant, rtype: RangeType::Unknown }
        },
        _ => Range { lower: constant, upper: constant, rtype: RangeType::Empty },
    }
}

/// The comparison-derived range for one side of a branch: `constant`
/// compared against a variable with `cmp_op`, on the true or false
/// branch, with the constant on the left or the right.  With the
/// constant on the right, `v < 5` gives `[MIN, 4]` on the true branch
/// and `[5, MAX]` on the false branch; a constant on the left is the
/// mirrored comparison as seen from the variable.
pub open spec fn spec_apply_comparison(
    constant: i64,
    cmp_op: BinOp,
    is_true_branch: bool,
    const_in_left: bool,
) -> Range {
    let var_cmp = if const_in_left {
        spec_mirror_cmp(cmp_op)
    } else {
        cmp_op
    };
    spec_cmp_split(constant, var_cmp, is_true_branch)
}

/// Compute the comparison-derived range (see `spec_apply_comparison`).
pub fn apply_comparison(constant: i64, cmp_op: BinOp, is_true_branch: bool, const_in_left: bool) -> (
    r: Range)
    ensures
        r == spec_apply_comparison(constant, cmp_op, is_true_branch, const_in_left),
{
    let var_cmp = if const_in_left {
        match cmp_op {
            BinOp::Lt => BinOp::Gt,
            BinOp::Le => BinOp::Ge,
            BinOp::Gt => BinOp::Lt,
            BinOp::Ge => BinOp::Le,
            other => other,
        }
    } else {
        cmp_op
    };
    match var_cmp {
        BinOp::Lt => {
            if is_true_branch {
                Range { lower: i64::MIN, upper: sat_sub(constant, 1), rtype: RangeType::Unknown }
            } else {
                Range { lower: constant, upper: i64::MAX, rtype: RangeType::Unknown }
            }
        },
        BinOp::Le => {
            if is_true_branch {
                Range { lower: i64::MIN, upper: constant, rtype: RangeType::Unknown }
            } else {
                Range { lower: sat_add(constant, 1), upper: i64::MAX, rtype: RangeType::Unknown }
            }
        },
        BinOp::Gt => {
            if is_true_branch {
                Range { lower: sat_add(constant, 1), upper: i64::MAX, rtype: RangeType::Unknown }
            } else {
                Range { lower: i64::MIN, upper: constant, rtype: RangeType::Unknown }
            }
        },
        BinOp::Ge => {
            if is_true_branch {
                Range { lower: constant, upper: i64::MAX, rtype: RangeType::Unknown }
            } else {
                Range { lower: i64::MIN, upper: sat_sub(constant, 1), rtype: RangeType::Unknown }
            }
        },
        BinOp::Eq => {
            if is_true_branch {
                Range { lower: constant, upper: constant, rtype: RangeType::Unknown }
            } else {
                Range { lower: i64::MIN, upper: i64::MAX, rtype: RangeType::Unknown }
            }
        },
        BinOp::Ne => {
            if is_true_branch {
                Range { lower: i64::MIN, upper: i64::MAX, rtype: RangeType::Unknown }
            } else {
                Range { lower: constant, upper: constant, rtype: RangeType::Unknown }
            }
        },
        _ => Range { lower: constant, upper: constant, rtype: RangeType::Empty },
    }
}

/// A constant on the left splits exactly as the mirrored comparison
/// with the constant on the right.
pub proof fn lemma_const_side_symmetry(constant: i64, cmp_op: BinOp, is_true_branch: bool)
    ensures
        spec_apply_comparison(constant, cmp_op, is_true_branch, true) == spec_apply_comparison(
            constant,
            spec_mirror_cmp(cmp_op),
            is_true_branch,
            false,
        ),
{
}

/// The comparison operator as seen from the other operand's side.
pub open spec fn spec_flipped_binop(op: BinOp) -> Option<BinOp> {
    match op {
        BinOp::Eq => Option::Some(BinOp::Eq),
        BinOp::Ne => Option::Some(BinOp::Ne),
        BinOp::Lt => Option::Some(BinOp::Gt),
        BinOp::Le => Option::Some(BinOp::Ge),
        BinOp::Gt => Option::Some(BinOp::Lt),
        BinOp::Ge => Option::Some(BinOp::Le),
        BinOp::Add => Option::Some(BinOp::Add),
        BinOp::Mul => Option::Some(BinOp::Mul),
        BinOp::BitXor => Option::Some(BinOp::BitXor),
        BinOp::BitAnd => Option::Some(BinOp::BitAnd),
        BinOp::BitOr => Option::Some(BinOp::BitOr),
        _ => Option::None,
    }
}

/// Flip a binary operator to the other operand's point of view.
pub fn flipped_binop(op: BinOp) -> (r: Option<BinOp>)
    ensures
        r == spec_flipped_binop(op),
{
    match op {
        BinOp::Eq => Option::Some(BinOp::Eq),
        BinOp::Ne => Option::Some(BinOp::Ne),
        BinOp::Lt => Option::Some(BinOp::Gt),
        BinOp::Le => Option::Some(BinOp::Ge),
        BinOp::Gt => Option::Some(BinOp::Lt),
        BinOp::Ge => Option::Some(BinOp::Le),
        BinOp::Add => Option::Some(BinOp::Add),
        BinOp::Mul => Option::Some(BinOp::Mul),
        BinOp::BitXor => Option::Some(BinOp::BitXor),
        BinOp::BitAnd => Option::Some(BinOp::BitAnd),
        BinOp::BitOr => Option::Some(BinOp::BitOr),
        _ => Option::None,
    }
}

/// The widened range: bounds move only toward the type extremes, and
/// only when the estimate exceeds the current bound on that side.
pub open spec fn spec_widen_step(old_r: Range, est: Range) -> Range {
    if old_r.rtype is Unknown {
        est
    } else if est.lower < old_r.lower && est.upper > old_r.upper {
        Range { lower: i64::MIN, upper: i64::MAX, rtype: RangeType::Regular }
    } else if est.lower < old_r.lower {
        Range { lower: i64::MIN, upper: old_r.upper, rtype: RangeType::Regular }
    } else if est.upper > old_r.upper {
        Range { lower: old_r.lower, upper: i64::MAX, rtype: RangeType::Regular }
    } else {
        old_r
    }
}

/// One widening step.  Until a bound reaches the type extreme it is kept;
/// after that it stays there: the lower bound never increases and the
/// upper bound never decreases.
pub fn widen_step(old_r: Range, est: Range) -> (r: Range)
    ensures
        r == spec_widen_step(old_r, est),
        !(old_r.rtype is Unknown) ==> r.lower <= old_r.lower && r.upper >= old_r.upper,
        !(old_r.rtype is Unknown) ==> (r.lower == old_r.lower || r.lower == i64::MIN) && (r.upper
            == old_r.upper || r.upper == i64::MAX),
{
    if old_r.is_unknown() {
        est
    } else if est.lower < old_r.lower && est.upper > old_r.upper {
        Range::full_regular()
    } else if est.lower < old_r.lower {
        Range { lower: i64::MIN, upper: old_r.upper, rtype: RangeType::Regular }
    } else if est.upper > old_r.upper {
        Range { lower: old_r.lower, upper: i64::MAX, rtype: RangeType::Regular }
    } else {
        old_r
    }
}

/// Widening is monotone across successive steps: each step can only
/// lower the lower bound and raise the upper bound, until they reach the
/// type extremes where they stay.
pub proof fn lemma_widen_monotone(r0: Range, e1: Range, e2: Range)
    requires
        !(r0.rtype is Unknown),
    ensures
        ({
            let r1 = spec_widen_step(r0, e1);
            let r2 = spec_widen_step(r1, e2);
            &&& r1.lower <= r0.lower && r0.upper <= r1.upper
            &&& r2.lower <= r1.lower && r1.upper <= r2.upper
            &&& r0.lower == i64::MIN ==> r1.lower == i64::MIN && r2.lower == i64::MIN
            &&& r0.upper == i64::MAX ==> r1.upper == i64::MAX && r2.upper == i64::MAX
        }),
{
}

/// The narrowed range: a bound is tightened when it sat at a type
/// extreme, or moved inward toward the estimate; it is never moved
/// outward past the widened range.
pub open spec fn spec_narrow_step(old_r: Range, est: Range) -> Range {
    let lo = if old_r.lower == i64::MIN && est.lower > i64::MIN {
        est.lower
    } else if old_r.lower <= est.lower {
        est.lower
    } else {
        old_r.lower
    };
    let hi = if old_r.upper == i64::MAX && est.upper < i64::MAX {
        est.upper
    } else if old_r.upper >= est.upper {
        est.upper
    } else {
        old_r.upper
    };
    Range { lower: lo, upper: hi, rtype: RangeType::Regular }
}

/// One narrowing step.  The result is never wider than the range just
/// widened to: the lower bound does not decrease and the upper bound
/// does not increase.
pub fn narrow_step(old_r: Range, est: Range) -> (r: Range)
    ensures
        r == spec_narrow_step(old_r, est),
        r.lower >= old_r.lower && r.upper <= old_r.upper,
{
    let lo: i64 = if old_r.lower == i64::MIN && est.lower > i64::MIN {
        est.lower
    } else if old_r.lower <= est.lower {
        est.lower
    } else {
        old_r.lower
    };
    let hi: i64 = if old_r.upper == i64::MAX && est.upper < i64::MAX {
        est.upper
    } else if old_r.upper >= est.upper {
        est.upper
    } else {
        old_r.upper
    };
    Range { lower: lo, upper: hi, rtype: RangeType::Regular }
}

/// Meet of two intervals (endpoint-wise).
pub open spec fn spec_range_intersect(a: Range, b: Range) -> Range {
    Range {
        lower: (if a.lower >= b.lower {
            a.lower
        } else {
            b.lower
        }),
        upper: (if a.upper <= b.upper {
            a.upper
        } else {
            b.upper
        }),
        rtype: RangeType::Regular,
    }
}

/// Narrowing is sound against the widened range: the result never grows
/// past the range it starts from on either side.
pub proof fn lemma_narrow_sound(r0: Range, est: Range)
    ensures
        spec_narrow_step(r0, est).lower >= r0.lower,
        spec_narrow_step(r0, est).upper <= r0.upper,
{
}

/// Intersection of two intervals (endpoint-wise; empty results keep the
/// crossing bounds and the `Regular` tag of interval refinement).
pub fn range_intersect(a: Range, b: Range) -> (r: Range)
    ensures
        r == spec_range_intersect(a, b),
{
    let lo: i64 = if a.lower >= b.lower {
        a.lower
    } else {
        b.lower
    };
    let hi: i64 = if a.upper <= b.upper {
        a.upper
    } else {
        b.upper
    };
    Range { lower: lo, upper: hi, rtype: RangeType::Regular }
}

/// Hull of two intervals.
pub open spec fn spec_range_unite(a: Range, b: Range) -> Range {
    Range {
        lower: (if a.lower <= b.lower {
            a.lower
        } else {
            b.lower
        }),
        upper: (if a.upper >= b.upper {
            a.upper
        } else {
            b.upper
        }),
        rtype: RangeType::Regular,
    }
}

/// Union (hull) of two intervals.
pub fn range_unite(a: Range, b: Range) -> (r: Range)
    ensures
        r == spec_range_unite(a, b),
{
    let lo: i64 = if a.lower <= b.lower {
        a.lower
    } else {
        b.lower
    };
    let hi: i64 = if a.upper >= b.upper {
        a.upper
    } else {
        b.upper
    };
    Range { lower: lo, upper: hi, rtype: RangeType::Regular }
}

/// Interval addition with saturating endpoints.
pub open spec fn spec_range_add(a: Range, b: Range) -> Range {
    Range {
        lower: spec_clip(a.lower + b.lower),
        upper: spec_clip(a.upper + b.upper),
        rtype: RangeType::Regular,
    }
}

/// Interval addition with saturating endpoints.
pub fn range_add(a: Range, b: Range) -> (r: Range)
    ensures
        r == spec_range_add(a, b),
{
    Range {
        lower: sat_add(a.lower, b.lower),
        upper: sat_add(a.upper, b.upper),
        rtype: RangeType::Regular,
    }
}

/// Interval subtraction with saturating endpoints.
pub open spec fn spec_range_sub(a: Range, b: Range) -> Range {
    Range {
        lower: spec_clip(a.lower - b.upper),
        upper: spec_clip(a.upper - b.lower),
        rtype: RangeType::Regular,
    }
}

/// Interval subtraction with saturating endpoints.
pub fn range_sub(a: Range, b: Range) -> (r: Range)
    ensures
        r == spec_range_sub(a, b),
{
    Range {
        lower: sat_sub(a.lower, b.upper),
        upper: sat_sub(a.upper, b.lower),
        rtype: RangeType::Regular,
    }
}

/// The smaller of two values.
pub open spec fn spec_min2(a: i64, b: i64) -> i64 {
    if a <= b {
        a
    } else {
        b
    }
}

/// The larger of two values.
pub open spec fn spec_max2(a: i64, b: i64) -> i64 {
    if a >= b {
        a
    } else {
        b
    }
}

/// Interval multiplication: the hull of the four saturated corner
/// products.
pub open spec fn spec_range_mul(a: Range, b: Range) -> Range {
    let c1 = spec_clip(a.lower * b.lower);
    let c2 = spec_clip(a.lower * b.upper);
    let c3 = spec_clip(a.upper * b.lower);
    let c4 = spec_clip(a.upper * b.upper);
    Range {
        lower: spec_min2(spec_min2(c1, c2), spec_min2(c3, c4)),
        upper: spec_max2(spec_max2(c1, c2), spec_max2(c3, c4)),
        rtype: RangeType::Regular,
    }
}

/// Interval multiplication with saturating endpoints: the hull of the
/// four corner products.
pub fn range_mul(a: Range, b: Range) -> (r: Range)
    ensures
        r == spec_range_mul(a, b),
        r.rtype is Regular,
{
    let c1 = sat_mul(a.lower, b.lower);
    let c2 = sat_mul(a.lower, b.upper);
    let c3 = sat_mul(a.upper, b.lower);
    let c4 = sat_mul(a.upper, b.upper);
    let mut lo = c1;
    let mut hi = c1;
    if c2 < lo {
        lo = c2;
    }
    if c3 < lo {
        lo = c3;
    }
    if c4 < lo {
        lo = c4;
    }
    if c2 > hi {
        hi = c2;
    }
    if c3 > hi {
        hi = c3;
    }
    if c4 > hi {
        hi = c4;
    }
    Range { lower: lo, upper: hi, rtype: RangeType::Regular }
}

} // verus!
