use rapx::dataflow::{
    DFSStatus, Direction, EdgeFilter, EdgeOp, Graph, NodeGate, NodeOp,
};
use rapx::ir::{BasicBlock, FnBody, Operand, Place, ProjElem, Rvalue, Statement, Terminator};
use rapx::render::escaped_string;

fn local_place(local: usize) -> Place {
    Place { local, projection: Vec::new() }
}

/// `let y = x.0;` over locals `_0` (return), `_1` (`x`), `_2` (`y`).
fn field_copy_body() -> FnBody {
    FnBody {
        arg_count: 1,
        local_count: 3,
        blocks: vec![BasicBlock {
            statements: vec![Statement::Assign(
                local_place(2),
                Rvalue::Use(Operand::Copy(Place {
                    local: 1,
                    projection: vec![ProjElem::Field(0)],
                })),
            )],
            terminator: Terminator::Return,
        }],
    }
}

#[test]
fn scenario_field_projection_edges() {
    let g = Graph::build_graph(0, &field_copy_body());
    // Exactly one projection edge tagged with field 0, from the node for
    // `x` to a newly created marker node, and one copy edge from that
    // marker to `y`'s node.
    assert_eq!(g.edges.len(), 2);
    assert_eq!(g.edges[0].op, EdgeOp::Field(0));
    assert_eq!(g.edges[0].src, 1);
    assert_eq!(g.edges[0].dst, 3);
    assert_eq!(g.edges[1].op, EdgeOp::Copy);
    assert_eq!(g.edges[1].src, 3);
    assert_eq!(g.edges[1].dst, 2);
    // The marker node is new (beyond the declared locals).
    assert_eq!(g.n_locals, 3);
    assert_eq!(g.nodes.len(), 4);
    // The write recorded a plain use on `y`.
    assert_eq!(g.nodes[2].ops[0], NodeOp::Use);
}

#[test]
fn connectivity_queries() {
    let g = Graph::build_graph(0, &field_copy_body());
    // `x` and `y` are connected through the projection chain.
    assert!(g.is_connected(1, 2));
    assert!(g.is_connected(2, 1));
    // The return node is untouched.
    assert!(!g.is_connected(1, 0));
    let deps = g.param_return_deps();
    assert_eq!(deps.len(), 2);
    // The return value trivially reaches itself; the argument does not
    // reach the return value here.
    assert!(deps[0]);
    assert!(!deps[1]);
}

#[test]
fn adjacency_getters() {
    let g = Graph::build_graph(0, &field_copy_body());
    assert_eq!(g.get_upside_idx(3, 0), Some(1));
    assert_eq!(g.get_downside_idx(3, 0), Some(2));
    assert_eq!(g.get_upside_idx(3, 5), None);
    assert_eq!(g.get_downside_idx(0, 0), None);
}

#[test]
fn traversal_filters() {
    let g = Graph::build_graph(0, &field_copy_body());
    // Following every edge, everything downstream of `x` is reached.
    let all = g.dfs(1, Direction::Downside, EdgeFilter::AllEdges, NodeGate::AllNodes);
    assert!(all[3] && all[2]);
    // The equivalence walk stops at the field projection.
    let equiv = g.dfs(
        1,
        Direction::Downside,
        EdgeFilter::EquivalentOnly,
        NodeGate::EquivLenient,
    );
    assert!(equiv[1]);
    assert!(!equiv[3] && !equiv[2]);
}

#[test]
fn equivalence_classes() {
    // `_2 = _1; _0 = _2;` chains three locals through plain copies.
    let body = FnBody {
        arg_count: 1,
        local_count: 3,
        blocks: vec![BasicBlock {
            statements: vec![
                Statement::Assign(local_place(2), Rvalue::Use(Operand::Copy(local_place(1)))),
                Statement::Assign(local_place(0), Rvalue::Use(Operand::Copy(local_place(2)))),
            ],
            terminator: Terminator::Return,
        }],
    };
    let g = Graph::build_graph(0, &body);
    let class = g.collect_equivalent_locals(2, true);
    assert!(class.contains(&0));
    assert!(class.contains(&1));
    assert!(class.contains(&2));
}

#[test]
fn equivalence_single_root_on_diamond() {
    // `_0 = _1; _0 = _2;` gives `_0` two upside parents.  The class is
    // collected downside from the chain's single root -- the smallest
    // upside-reachable node, here `_0` itself -- so the parents are not
    // unioned in.
    let body = FnBody {
        arg_count: 2,
        local_count: 3,
        blocks: vec![BasicBlock {
            statements: vec![
                Statement::Assign(local_place(0), Rvalue::Use(Operand::Copy(local_place(1)))),
                Statement::Assign(local_place(0), Rvalue::Use(Operand::Copy(local_place(2)))),
            ],
            terminator: Terminator::Return,
        }],
    };
    let g = Graph::build_graph(0, &body);
    let class = g.collect_equivalent_locals(0, false);
    assert!(class.contains(&0));
    assert!(!class.contains(&1));
    assert!(!class.contains(&2));
}

#[test]
fn dfs_status_combinators() {
    assert!(matches!(
        DFSStatus::and(DFSStatus::Continue, DFSStatus::Continue),
        DFSStatus::Continue
    ));
    assert!(matches!(
        DFSStatus::and(DFSStatus::Continue, DFSStatus::Stop),
        DFSStatus::Stop
    ));
    assert!(matches!(
        DFSStatus::or(DFSStatus::Stop, DFSStatus::Continue),
        DFSStatus::Continue
    ));
    assert!(matches!(
        DFSStatus::or(DFSStatus::Stop, DFSStatus::Stop),
        DFSStatus::Stop
    ));
}

#[test]
fn edge_validators() {
    let g = Graph::build_graph(0, &field_copy_body());
    // Edge 0 is the field projection, edge 1 the copy.
    assert!(matches!(g.equivalent_edge_validator(0), DFSStatus::Stop));
    assert!(matches!(g.equivalent_edge_validator(1), DFSStatus::Continue));
    assert!(matches!(g.always_true_edge_validator(0), DFSStatus::Continue));
}

#[test]
fn label_escaping() {
    assert_eq!(escaped_string("plain".to_string()), "plain");
    assert_eq!(escaped_string("a{b}c".to_string()), "a\\{b\\}c");
    assert_eq!(escaped_string("<f0> \"x\"".to_string()), "\\<f0\\> \\\"x\\\"");
    assert_eq!(escaped_string(String::new()), "");
}

#[test]
fn call_terminators_record_their_target() {
    let body = FnBody {
        arg_count: 1,
        local_count: 3,
        blocks: vec![
            BasicBlock {
                statements: vec![],
                terminator: Terminator::Call {
                    func: rapx::ir::CallFunc::Direct(42),
                    args: vec![Operand::Copy(local_place(1))],
                    destination: local_place(2),
                    target: 1,
                },
            },
            BasicBlock {
                statements: vec![],
                terminator: Terminator::Return,
            },
        ],
    };
    let g = Graph::build_graph(7, &body);
    assert_eq!(g.fn_id, 7);
    assert_eq!(g.nodes[2].ops[0], NodeOp::Call(42));
    assert_eq!(g.edges.len(), 1);
    assert_eq!(g.edges[0].op, EdgeOp::Copy);
    assert_eq!(g.edges[0].src, 1);
    assert_eq!(g.edges[0].dst, 2);
}
