use rapx::analysis::run_range_analysis;
use rapx::symbolic::{SymbolicExpr, UnknownReason};
use rapx::ir::{AggCtor, BasicBlock, BinOp, FnBody, Operand, Place, Rvalue, Statement, Terminator};
use rapx::range::{
    apply_comparison, flipped_binop, narrow_step, range_add, range_intersect, range_sub,
    range_unite, sat_add, sat_mul, sat_sub, widen_step, Range, RangeType,
};

#[test]
fn comparison_table_for_less_than() {
    // Constant 5 on the right of `<`: the true branch bounds the variable
    // above by 4, the false branch below by 5.
    let true_side = apply_comparison(5, BinOp::Lt, true, false);
    assert_eq!(true_side.lower, i64::MIN);
    assert_eq!(true_side.upper, 4);
    let false_side = apply_comparison(5, BinOp::Lt, false, false);
    assert_eq!(false_side.lower, 5);
    assert_eq!(false_side.upper, i64::MAX);
}

#[test]
fn comparison_table_other_operators() {
    // `v <= 5`: at most 5 when it holds, at least 6 when it fails.
    let le_true = apply_comparison(5, BinOp::Le, true, false);
    assert_eq!((le_true.lower, le_true.upper), (i64::MIN, 5));
    let le_false = apply_comparison(5, BinOp::Le, false, false);
    assert_eq!((le_false.lower, le_false.upper), (6, i64::MAX));
    // `v > 5`: at least 6 when it holds, at most 5 when it fails.
    let gt_true = apply_comparison(5, BinOp::Gt, true, false);
    assert_eq!((gt_true.lower, gt_true.upper), (6, i64::MAX));
    let gt_false = apply_comparison(5, BinOp::Gt, false, false);
    assert_eq!((gt_false.lower, gt_false.upper), (i64::MIN, 5));
    // `v >= 5`: at least 5 when it holds, at most 4 when it fails.
    let ge_true = apply_comparison(5, BinOp::Ge, true, false);
    assert_eq!((ge_true.lower, ge_true.upper), (5, i64::MAX));
    let ge_false = apply_comparison(5, BinOp::Ge, false, false);
    assert_eq!((ge_false.lower, ge_false.upper), (i64::MIN, 4));
    // `v == 5`: exactly 5 when it holds, unrefined when it fails.
    let eq_true = apply_comparison(5, BinOp::Eq, true, false);
    assert_eq!((eq_true.lower, eq_true.upper), (5, 5));
    let eq_false = apply_comparison(5, BinOp::Eq, false, false);
    assert_eq!((eq_false.lower, eq_false.upper), (i64::MIN, i64::MAX));
    // `v != 5`: unrefined when it holds, exactly 5 when it fails.
    let ne_true = apply_comparison(5, BinOp::Ne, true, false);
    assert_eq!((ne_true.lower, ne_true.upper), (i64::MIN, i64::MAX));
    let ne_false = apply_comparison(5, BinOp::Ne, false, false);
    assert_eq!((ne_false.lower, ne_false.upper), (5, 5));
}

#[test]
fn comparison_table_constant_on_left() {
    // `5 < x` on the true branch bounds the variable below by 6.
    let true_side = apply_comparison(5, BinOp::Lt, true, true);
    assert_eq!((true_side.lower, true_side.upper), (6, i64::MAX));
    let false_side = apply_comparison(5, BinOp::Lt, false, true);
    assert_eq!((false_side.lower, false_side.upper), (i64::MIN, 5));
    // A constant on the left equals the mirrored comparison on the right.
    for (op, mirrored) in [
        (BinOp::Lt, BinOp::Gt),
        (BinOp::Le, BinOp::Ge),
        (BinOp::Gt, BinOp::Lt),
        (BinOp::Ge, BinOp::Le),
        (BinOp::Eq, BinOp::Eq),
        (BinOp::Ne, BinOp::Ne),
    ] {
        for branch in [true, false] {
            assert_eq!(
                apply_comparison(7, op, branch, true),
                apply_comparison(7, mirrored, branch, false)
            );
        }
    }
}

#[test]
fn flipping_comparisons() {
    assert_eq!(flipped_binop(BinOp::Lt), Some(BinOp::Gt));
    assert_eq!(flipped_binop(BinOp::Le), Some(BinOp::Ge));
    assert_eq!(flipped_binop(BinOp::Gt), Some(BinOp::Lt));
    assert_eq!(flipped_binop(BinOp::Ge), Some(BinOp::Le));
    assert_eq!(flipped_binop(BinOp::Eq), Some(BinOp::Eq));
    assert_eq!(flipped_binop(BinOp::Shl), None);
}

#[test]
fn saturating_endpoint_arithmetic() {
    assert_eq!(sat_add(1, 2), 3);
    assert_eq!(sat_add(i64::MAX, 1), i64::MAX);
    assert_eq!(sat_sub(i64::MIN, 1), i64::MIN);
    assert_eq!(sat_mul(1 << 40, 1 << 40), i64::MAX);
    assert_eq!(sat_mul(1 << 40, -(1 << 40)), i64::MIN);
    assert_eq!(sat_mul(-3, -4), 12);
}

fn regular(lower: i64, upper: i64) -> Range {
    Range { lower, upper, rtype: RangeType::Regular }
}

#[test]
fn widening_moves_bounds_only_outward() {
    let old_r = regular(0, 10);
    // Estimate exceeds below: the lower bound jumps to the minimum.
    let w1 = widen_step(old_r, regular(-5, 10));
    assert_eq!((w1.lower, w1.upper), (i64::MIN, 10));
    // Estimate exceeds above: the upper bound jumps to the maximum.
    let w2 = widen_step(old_r, regular(0, 11));
    assert_eq!((w2.lower, w2.upper), (0, i64::MAX));
    // Estimate inside: nothing moves.
    let w3 = widen_step(old_r, regular(2, 9));
    assert_eq!((w3.lower, w3.upper), (0, 10));
    // Successive widenings never raise the lower or lower the upper bound.
    let w4 = widen_step(w1, regular(-100, 50));
    assert!(w4.lower <= w1.lower && w4.upper >= w1.upper);
}

#[test]
fn narrowing_never_widens() {
    let widened = regular(i64::MIN, 10);
    let n1 = narrow_step(widened, regular(3, 10));
    assert_eq!((n1.lower, n1.upper), (3, 10));
    assert!(n1.lower >= widened.lower && n1.upper <= widened.upper);
    let n2 = narrow_step(regular(0, i64::MAX), regular(0, 7));
    assert_eq!((n2.lower, n2.upper), (0, 7));
}

#[test]
fn interval_arithmetic() {
    let a = regular(1, 4);
    let b = regular(10, 20);
    let sum = range_add(a, b);
    assert_eq!((sum.lower, sum.upper), (11, 24));
    let diff = range_sub(b, a);
    assert_eq!((diff.lower, diff.upper), (6, 19));
    let hull = range_unite(a, b);
    assert_eq!((hull.lower, hull.upper), (1, 20));
    let meet = range_intersect(regular(0, 15), b);
    assert_eq!((meet.lower, meet.upper), (10, 15));
}

fn local_place(local: usize) -> Place {
    Place { local, projection: Vec::new() }
}

const SSA_MARKER: usize = 1000;
const ESSA_MARKER: usize = 1001;

/// `fn bar(k: i32) -> i32 { let mut i = k; while i < 100 { i += 1; } i }`
/// in bound-annotated static-single-assignment form: local 1 is `k`,
/// local 2 the initial copy, local 3 the loop-head merge, local 5 the
/// true-branch refinement, local 6 the incremented copy, and local 7 the
/// exit refinement.
fn loop_body() -> FnBody {
    FnBody {
        arg_count: 1,
        local_count: 8,
        blocks: vec![
            BasicBlock {
                statements: vec![Statement::Assign(
                    local_place(2),
                    Rvalue::Use(Operand::Copy(local_place(1))),
                )],
                terminator: Terminator::Goto(1),
            },
            BasicBlock {
                statements: vec![
                    Statement::Assign(
                        local_place(3),
                        Rvalue::Aggregate(
                            AggCtor::Adt(SSA_MARKER),
                            vec![
                                Operand::Copy(local_place(2)),
                                Operand::Copy(local_place(6)),
                            ],
                        ),
                    ),
                    Statement::Assign(
                        local_place(4),
                        Rvalue::BinaryOp(
                            BinOp::Lt,
                            Operand::Copy(local_place(3)),
                            Operand::Constant(100),
                        ),
                    ),
                ],
                terminator: Terminator::SwitchInt {
                    discr: Operand::Copy(local_place(4)),
                    false_target: 3,
                    true_target: 2,
                },
            },
            BasicBlock {
                statements: vec![
                    Statement::Assign(
                        local_place(5),
                        Rvalue::Aggregate(
                            AggCtor::Adt(ESSA_MARKER),
                            vec![Operand::Copy(local_place(3)), Operand::Constant(0)],
                        ),
                    ),
                    Statement::Assign(
                        local_place(6),
                        Rvalue::BinaryOp(
                            BinOp::Add,
                            Operand::Copy(local_place(5)),
                            Operand::Constant(1),
                        ),
                    ),
                ],
                terminator: Terminator::Goto(1),
            },
            BasicBlock {
                statements: vec![
                    Statement::Assign(
                        local_place(7),
                        Rvalue::Aggregate(
                            AggCtor::Adt(ESSA_MARKER),
                            vec![Operand::Copy(local_place(3)), Operand::Constant(0)],
                        ),
                    ),
                    Statement::Assign(
                        local_place(0),
                        Rvalue::Use(Operand::Copy(local_place(7))),
                    ),
                ],
                terminator: Terminator::Return,
            },
        ],
    }
}

#[test]
fn scenario_loop_exit_range() {
    let body = loop_body();
    let cg = run_range_analysis(&body, ESSA_MARKER, SSA_MARKER);
    // The loop-exit refinement of `i` carries the negated condition:
    // at least 100, with an unconstrained (widened) upper bound.
    let exit = cg.get_range(7).unwrap();
    assert_eq!(exit.lower, 100);
    assert_eq!(exit.upper, i64::MAX);
    // The returned value carries the same bounds.
    let ret = cg.get_range(0).unwrap();
    assert_eq!(ret.lower, 100);
    assert_eq!(ret.upper, i64::MAX);
    // Inside the loop the refinement stays below the bound.
    let inside = cg.get_range(5).unwrap();
    assert_eq!(inside.upper, 99);
}

#[test]
fn symbolic_expression_reconstruction() {
    let body = loop_body();
    let cg = run_range_analysis(&body, ESSA_MARKER, SSA_MARKER);
    // The initial copy reads straight from the argument.
    let init = cg.get_symbolicexpression(2).unwrap();
    assert_eq!(init, SymbolicExpr::Argument(1));
    // The loop-carried merge depends on itself through the refinement;
    // the recursion stops with a sentinel instead of looping.
    let merged = cg.get_symbolicexpression(3).unwrap();
    match merged {
        SymbolicExpr::Ssa(parts) => {
            assert_eq!(parts.len(), 2);
            assert_eq!(parts[0], SymbolicExpr::Argument(1));
            match &parts[1] {
                SymbolicExpr::BinaryOp { op: BinOp::Add, left, right } => {
                    assert_eq!(**left, SymbolicExpr::Unknown(UnknownReason::CannotParse));
                    assert_eq!(**right, SymbolicExpr::Constant(1));
                },
                other => panic!("unexpected expression {:?}", other),
            }
        },
        other => panic!("unexpected expression {:?}", other),
    }
}
