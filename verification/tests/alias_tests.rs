use rapx::alias_analysis::{analyze_fn_body, place_to_id, transfer_assign, transfer_ref, PlaceInfo};
use rapx::alias_domain::AliasDomain;
use rapx::alias_summary::{AliasPair, FnAliasPairs, join_fn_summaries};
use rapx::extraction::{extract_summary, filter_redundant_aliases};
use rapx::ir::{BasicBlock, FnBody, Operand, Place, ProjElem, Rvalue, Statement, Terminator};
use rapx::places::{extract_field_path, extract_fields, is_field_prefix, is_strict_prefix, PlaceId};

fn pair(left: usize, right: usize, lhs: &[usize], rhs: &[usize]) -> AliasPair {
    AliasPair {
        left_local: left,
        right_local: right,
        lhs_fields: lhs.to_vec(),
        rhs_fields: rhs.to_vec(),
    }
}

#[test]
fn union_find_laws() {
    let mut d = AliasDomain::new(10);
    // Reflexive before any union.
    assert!(d.are_aliased(3, 3));
    // union(i, j) makes are_aliased(i, j) true.
    assert!(d.union(1, 2));
    assert!(d.are_aliased(1, 2));
    // Symmetric.
    assert!(d.are_aliased(2, 1));
    // Transitive within a component.
    assert!(d.union(2, 5));
    assert!(d.are_aliased(1, 5));
    assert!(d.are_aliased(5, 1));
    // A second union of the same component reports no change.
    assert!(!d.union(1, 5));
    // Untouched indices stay apart.
    assert!(!d.are_aliased(1, 7));
}

#[test]
fn join_with_itself_is_a_no_op() {
    let mut d = AliasDomain::new(6);
    d.union(0, 1);
    d.union(2, 3);
    let copy = d.clone();
    let changed = d.join(&copy);
    assert!(!changed);
    assert!(d.are_aliased(0, 1));
    assert!(d.are_aliased(2, 3));
    assert!(!d.are_aliased(1, 2));
}

#[test]
fn join_absorbs_the_other_relation() {
    let mut a = AliasDomain::new(6);
    a.union(0, 1);
    let mut b = AliasDomain::new(6);
    b.union(1, 2);
    let changed = a.join(&b);
    assert!(changed);
    assert!(a.are_aliased(0, 1));
    assert!(a.are_aliased(1, 2));
    assert!(a.are_aliased(0, 2));
}

#[test]
fn kill_resets_to_singleton() {
    let mut d = AliasDomain::new(4);
    d.union(0, 1);
    d.union(1, 2);
    d.remove_aliases(1);
    assert!(!d.are_aliased(1, 0));
    assert!(!d.are_aliased(1, 2));
}

#[test]
fn prefix_predicates() {
    assert!(is_field_prefix(&[], &[0]));
    assert!(!is_field_prefix(&[0], &[1]));
    assert!(is_field_prefix(&[0], &[0, 1]));
    assert!(is_field_prefix(&[0], &[0]));
    assert!(!is_field_prefix(&[0, 1], &[0, 2]));
    assert!(!is_strict_prefix(&[0], &[0]));
    assert!(is_strict_prefix(&[0], &[0, 1]));
    assert!(is_strict_prefix(&[], &[0]));
    assert!(!is_strict_prefix(&[0], &[1]));
}

#[test]
fn place_identifiers() {
    let base = PlaceId::Local(15);
    assert_eq!(base.root_local(), 15);
    let nested = base.project_field(0).project_field(1);
    assert_eq!(nested.root_local(), 15);
    assert_eq!(extract_field_path(&nested), vec![0, 1]);
    let (root, leaf_to_root) = extract_fields(&nested);
    assert_eq!(root, 15);
    assert_eq!(leaf_to_root, vec![1, 0]);
}

#[test]
fn filter_drops_self_aliases_and_subsumed_facts() {
    let candidates = vec![
        pair(0, 1, &[], &[]),
        pair(0, 1, &[0], &[]),
        pair(1, 1, &[], &[]),
        pair(0, 2, &[1], &[]),
    ];
    let kept = filter_redundant_aliases(&candidates);
    assert_eq!(kept.len(), 2);
    assert_eq!(kept[0], pair(0, 1, &[], &[]));
    assert_eq!(kept[1], pair(0, 2, &[1], &[]));
}

#[test]
fn extraction_is_idempotent() {
    let mut state = AliasDomain::new(5);
    state.union(0, 3);
    state.union(3, 1);
    let places = vec![
        PlaceId::Local(0),
        PlaceId::Local(1),
        PlaceId::Local(2),
        PlaceId::Local(7),
        PlaceId::Local(2).project_field(0),
    ];
    let first = extract_summary(&state, &places, 2);
    let second = extract_summary(&state, &places, 2);
    assert_eq!(first.aliases(), second.aliases());
    assert_eq!(first.arg_size(), 2);
}

#[test]
fn summary_joins_union_facts() {
    let mut s1 = FnAliasPairs::new(2);
    s1.add_alias(pair(0, 1, &[], &[]));
    let mut s2 = FnAliasPairs::new(2);
    s2.add_alias(pair(0, 2, &[], &[]));
    s2.add_alias(pair(0, 1, &[], &[]));
    let joined = join_fn_summaries(&s1, &s2);
    assert_eq!(joined.arg_size(), 2);
    assert_eq!(joined.len(), 2);
    assert_eq!(joined.aliases()[0], pair(0, 1, &[], &[]));
    assert_eq!(joined.aliases()[1], pair(0, 2, &[], &[]));
}

#[test]
fn transfer_functions_record_aliases() {
    let mut state = AliasDomain::new(4);
    transfer_ref(&mut state, 3, 1);
    assert!(state.are_aliased(3, 1));
    transfer_assign(&mut state, 0, 3);
    assert!(state.are_aliased(0, 3));
    // The killed target forgot nothing about the others.
    assert!(state.are_aliased(3, 1));
}

fn local_place(local: usize) -> Place {
    Place { local, projection: Vec::new() }
}

/// `fn foo(x: &i32, y: &i32, c: bool) -> &i32 { if c { x } else { y } }`
fn branchy_body() -> FnBody {
    FnBody {
        arg_count: 3,
        local_count: 4,
        blocks: vec![
            BasicBlock {
                statements: vec![],
                terminator: Terminator::SwitchInt {
                    discr: Operand::Copy(local_place(3)),
                    false_target: 2,
                    true_target: 1,
                },
            },
            BasicBlock {
                statements: vec![Statement::Assign(
                    local_place(0),
                    Rvalue::Use(Operand::Copy(local_place(1))),
                )],
                terminator: Terminator::Goto(3),
            },
            BasicBlock {
                statements: vec![Statement::Assign(
                    local_place(0),
                    Rvalue::Use(Operand::Copy(local_place(2))),
                )],
                terminator: Terminator::Goto(3),
            },
            BasicBlock {
                statements: vec![],
                terminator: Terminator::Return,
            },
        ],
    }
}

#[test]
fn scenario_branches_alias_both_arguments_with_the_return() {
    let body = branchy_body();
    let summaries: Vec<Option<FnAliasPairs>> = Vec::new();
    let summary = analyze_fn_body(&body, &summaries);
    let facts = summary.aliases();
    // Argument 1 and argument 2 each may alias the return value (index 0).
    assert!(facts.iter().any(|f| f == &pair(0, 1, &[], &[])));
    assert!(facts.iter().any(|f| f == &pair(0, 2, &[], &[])));
    assert_eq!(summary.arg_size(), 3);
}

#[test]
fn place_table_registers_each_place_once() {
    let mut info = PlaceInfo::new();
    let a = info.register_place(PlaceId::Local(4), false, false);
    let b = info.register_place(PlaceId::Local(4).project_field(1), true, false);
    let again = info.register_place(PlaceId::Local(4), false, false);
    assert_eq!(a, again);
    assert_ne!(a, b);
    assert_eq!(info.num_places(), 2);
    assert_eq!(info.get_index(&PlaceId::Local(4)), Some(a));
    assert_eq!(info.get_index(&PlaceId::Local(9)), None);
    assert_eq!(info.get_place(b), Some(&PlaceId::Local(4).project_field(1)));
    assert!(info.may_drop(b));
    assert!(!info.need_drop(b));
}

#[test]
fn ir_place_to_identifier_folds_fields() {
    let p = Place {
        local: 2,
        projection: vec![ProjElem::Deref, ProjElem::Field(1), ProjElem::Field(0)],
    };
    let id = place_to_id(&p);
    assert_eq!(id, PlaceId::Local(2).project_field(1).project_field(0));
}

#[test]
fn extraction_bridges_through_temporaries() {
    // `_0.0` aliases the temporary `_15`, and `_1` aliases `_15.0`: the
    // two facts connect through the bridge root and yield direct
    // argument/return facts, with the deep side's path compressed.
    let places = vec![
        PlaceId::Local(0),
        PlaceId::Local(1),
        PlaceId::Local(0).project_field(0),
        PlaceId::Local(15),
        PlaceId::Local(15).project_field(0),
    ];
    let mut state = AliasDomain::new(5);
    state.union(2, 3);
    state.union(1, 4);
    let summary = extract_summary(&state, &places, 1);
    let facts = summary.aliases();
    assert!(facts.iter().any(|f| f == &pair(0, 1, &[0], &[])));
    assert!(facts.iter().any(|f| f == &pair(1, 0, &[], &[0])));
    // No self-aliases survive the filter.
    assert!(facts.iter().all(|f| !(f.left_local == f.right_local)));
}

#[test]
fn find_returns_a_common_representative() {
    let mut d = AliasDomain::new(6);
    d.union(1, 2);
    d.union(2, 4);
    let r1 = d.find(1);
    let r2 = d.find(4);
    assert_eq!(r1, r2);
    let lone = d.find(5);
    assert_eq!(lone, 5);
}
