use rapx::alias_domain::AliasDomain;
use rapx::analysis::{DefaultRange, MfpAliasAnalyzer};
use rapx::ir::{BasicBlock, FnBody, Operand, Place, Rvalue, Statement, Terminator};

fn local_place(local: usize) -> Place {
    Place { local, projection: Vec::new() }
}

/// `fn id(x: &i32) -> &i32 { x }`
fn identity_body() -> FnBody {
    FnBody {
        arg_count: 1,
        local_count: 2,
        blocks: vec![BasicBlock {
            statements: vec![Statement::Assign(
                local_place(0),
                Rvalue::Use(Operand::Copy(local_place(1))),
            )],
            terminator: Terminator::Return,
        }],
    }
}

#[test]
fn alias_pairs_enumeration_is_ordered() {
    let mut d = AliasDomain::new(4);
    d.union(0, 2);
    d.union(1, 3);
    let pairs = d.get_all_alias_pairs();
    assert_eq!(pairs, vec![(0, 2), (1, 3)]);
}

#[test]
fn analyzer_publishes_summaries() {
    let mut analyzer = MfpAliasAnalyzer::new();
    assert!(analyzer.get_fn_alias(0).is_none());
    analyzer.analyze_function(0, &identity_body());
    let summary = analyzer.get_fn_alias(0).unwrap();
    assert_eq!(summary.arg_size(), 1);
    let facts = summary.aliases();
    assert_eq!(facts.len(), 1);
    assert_eq!(facts[0].left_local, 0);
    assert_eq!(facts[0].right_local, 1);
    assert_eq!(analyzer.get_all_fn_alias().len(), 1);
    analyzer.reset();
    assert!(analyzer.get_fn_alias(0).is_none());
}

#[test]
fn callee_summaries_flow_through_call_sites() {
    // `fn caller(a: &i32) -> &i32 { id(a) }`: with the identity summary
    // published, the call aliases the destination with the argument.
    let caller = FnBody {
        arg_count: 1,
        local_count: 2,
        blocks: vec![
            BasicBlock {
                statements: vec![],
                terminator: Terminator::Call {
                    func: rapx::ir::CallFunc::Direct(0),
                    args: vec![Operand::Copy(local_place(1))],
                    destination: local_place(0),
                    target: 1,
                },
            },
            BasicBlock {
                statements: vec![],
                terminator: Terminator::Return,
            },
        ],
    };
    let mut analyzer = MfpAliasAnalyzer::new();
    analyzer.analyze_function(0, &identity_body());
    analyzer.analyze_function(1, &caller);
    let summary = analyzer.get_fn_alias(1).unwrap();
    let facts = summary.aliases();
    assert_eq!(facts.len(), 1);
    assert_eq!((facts[0].left_local, facts[0].right_local), (0, 1));
}

#[test]
fn range_driver_publishes_per_function_maps() {
    // `fn two() -> i64 { 2 }`
    let body = FnBody {
        arg_count: 0,
        local_count: 1,
        blocks: vec![BasicBlock {
            statements: vec![Statement::Assign(
                local_place(0),
                Rvalue::Use(Operand::Constant(2)),
            )],
            terminator: Terminator::Return,
        }],
    };
    let mut ranges = DefaultRange::new(1001, 1000);
    ranges.analyze_function(3, &body);
    let r = ranges.get_fn_local_range(3, 0).unwrap();
    assert_eq!(r.lower, 2);
    assert_eq!(r.upper, 2);
    assert!(ranges.get_fn_local_range(2, 0).is_none());
    assert!(ranges.get_fn_range(3).is_some());
}
