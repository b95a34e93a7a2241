//! Whole-program drivers over the per-function engines.
//!
//! Functions are identified by dense indices.  Summaries and range maps
//! are published per function into plain tables; callers read them back
//! and never mutate a published entry in place.

use vstd::prelude::*;

use crate::alias_analysis::analyze_fn_body;
use crate::alias_summary::FnAliasPairs;
use crate::constraints::ConstraintGraph;
use crate::ir::FnBody;
use crate::range::Range;

verus! {

/// The alias analyzer: one summary per analyzed function.
pub struct MfpAliasAnalyzer {
    fn_map: Vec<Option<FnAliasPairs>>,
}

impl MfpAliasAnalyzer {
    /// The published summaries.
    pub closed spec fn summaries(self) -> Seq<Option<FnAliasPairs>> {
        self.fn_map@
    }

    /// An analyzer with no published summaries.
    pub fn new() -> (r: MfpAliasAnalyzer)
        ensures
            r.summaries().len() == 0,
    {
        MfpAliasAnalyzer { fn_map: Vec::new() }
    }

    /// Analyze one function and publish its summary under `fn_id`.
    /// Callees already analyzed are composed through their published
    /// summaries at call sites.
    pub fn analyze_function(&mut self, fn_id: usize, body: &FnBody)
        requires
            fn_id < usize::MAX,
        ensures
            fn_id < final(self).summaries().len(),
            final(self).summaries()[fn_id as int] is Some,
            // The published entry carries the per-function result: the
            // body's argument count, no duplicate facts, and every fact
            // rooted at an argument or the return value.
            final(self).summaries()[fn_id as int].unwrap().spec_arg_size() == body.arg_count,
            final(self).summaries()[fn_id as int].unwrap().no_duplicates(),
            forall|t: int|
                0 <= t < final(self).summaries()[fn_id as int].unwrap().keys().len() ==> (
                #[trigger] final(self).summaries()[fn_id as int].unwrap().keys()[t]).0
                    <= body.arg_count && final(self).summaries()[fn_id as int].unwrap().keys()[t].1
                    <= body.arg_count,
            // Other functions' entries are kept; slots grown to reach
            // `fn_id` are empty.
            final(self).summaries().len() == if fn_id < old(self).summaries().len() {
                old(self).summaries().len() as int
            } else {
                fn_id + 1
            },
            forall|t: int|
                0 <= t < old(self).summaries().len() && t != fn_id
                    ==> #[trigger] final(self).summaries()[t] == old(self).summaries()[t],
            forall|t: int|
                old(self).summaries().len() <= t < final(self).summaries().len() && t != fn_id
                    ==> #[trigger] final(self).summaries()[t] is None,
    {
        let summary = analyze_fn_body(body, &self.fn_map);
        while self.fn_map.len() <= fn_id
            invariant
                fn_id < usize::MAX,
                old(self).fn_map@.len() <= self.fn_map@.len(),
                self.fn_map@.len() <= fn_id + 1 || self.fn_map@.len() == old(self).fn_map@.len(),
                forall|t: int|
                    0 <= t < old(self).fn_map@.len() ==> #[trigger] self.fn_map@[t] == old(
                        self,
                    ).fn_map@[t],
                forall|t: int|
                    old(self).fn_map@.len() <= t < self.fn_map@.len() ==> #[trigger] self.fn_map@[t]
                        is None,
            decreases fn_id + 1 - self.fn_map.len(),
        {
            self.fn_map.push(Option::None);
        }
        self.fn_map.set(fn_id, Option::Some(summary));
    }

    /// The published summary of one function.
    pub fn get_fn_alias(&self, fn_id: usize) -> (r: Option<&FnAliasPairs>)
        ensures
            r is Some <==> fn_id < self.summaries().len() && self.summaries()[fn_id as int]
                is Some,
            r is Some ==> *r.unwrap() == self.summaries()[fn_id as int].unwrap(),
    {
        if fn_id < self.fn_map.len() {
            match &self.fn_map[fn_id] {
                Option::Some(s) => Option::Some(s),
                Option::None => Option::None,
            }
        } else {
            Option::None
        }
    }

    /// All published summaries.
    pub fn get_all_fn_alias(&self) -> (r: &Vec<Option<FnAliasPairs>>)
        ensures
            r@ == self.summaries(),
    {
        &self.fn_map
    }

    /// Drop every published summary.
    pub fn reset(&mut self)
        ensures
            final(self).summaries().len() == 0,
    {
        self.fn_map = Vec::new();
    }
}

/// Run the range pipeline over one e-SSA body: build the constraint
/// graph and its branch intervals, default the free inputs, detect the
/// components, and resolve them in topological order.
pub fn run_range_analysis(body: &FnBody, essa: usize, ssa: usize) -> (cg: ConstraintGraph)
    requires
        crate::dataflow::body_bounded(*body),
    ensures
        cg.wf(),
        cg.n() == body.local_count,
        // Every tracked local leaves the pipeline with a resolved range.
        forall|v: int|
            0 <= v < cg.n() && (#[trigger] cg.vars@[v]) is Some ==> !(cg.vars@[v].unwrap()
                .range.rtype is Unknown),
{
    let mut cg = ConstraintGraph::new(essa, ssa, body.local_count);
    cg.build_graph(body);
    cg.build_varnodes();
    cg.build_nuutila(false);
    cg.find_intervals();
    cg
}

/// The range analyzer: one resolved constraint graph per function.
pub struct DefaultRange {
    fn_graphs: Vec<Option<ConstraintGraph>>,
    /// Marker identity of the bound-intersection pseudo-statements.
    pub essa_id: usize,
    /// Marker identity of the phi pseudo-statements.
    pub ssa_id: usize,
}

impl DefaultRange {
    /// The published graphs.
    pub closed spec fn graphs(self) -> Seq<Option<ConstraintGraph>> {
        self.fn_graphs@
    }

    /// All published graphs are well formed.
    pub closed spec fn wf(self) -> bool {
        forall|t: int|
            0 <= t < self.graphs().len() && (#[trigger] self.graphs()[t]) is Some
                ==> self.graphs()[t].unwrap().wf()
    }

    /// An analyzer with the two marker identities.
    pub fn new(essa_id: usize, ssa_id: usize) -> (r: DefaultRange)
        ensures
            r.wf(),
            r.graphs().len() == 0,
    {
        DefaultRange { fn_graphs: Vec::new(), essa_id, ssa_id }
    }

    /// Analyze one function and publish its resolved ranges.
    pub fn analyze_function(&mut self, fn_id: usize, body: &FnBody)
        requires
            old(self).wf(),
            fn_id < usize::MAX,
            crate::dataflow::body_bounded(*body),
        ensures
            final(self).wf(),
            fn_id < final(self).graphs().len(),
            // The published entry is the resolved pipeline result for
            // this body: right size, every tracked local resolved.
            final(self).graphs()[fn_id as int] is Some,
            final(self).graphs()[fn_id as int].unwrap().n() == body.local_count,
            forall|v: int|
                0 <= v < body.local_count && (#[trigger] final(self).graphs()[fn_id as int]
                    .unwrap().vars@[v]) is Some ==> !(final(self).graphs()[fn_id as int].unwrap()
                    .vars@[v].unwrap().range.rtype is Unknown),
            // Other functions' entries are kept; slots grown to reach
            // `fn_id` are empty.
            final(self).graphs().len() == if fn_id < old(self).graphs().len() {
                old(self).graphs().len() as int
            } else {
                fn_id + 1
            },
            forall|t: int|
                0 <= t < old(self).graphs().len() && t != fn_id
                    ==> #[trigger] final(self).graphs()[t] == old(self).graphs()[t],
            forall|t: int|
                old(self).graphs().len() <= t < final(self).graphs().len() && t != fn_id
                    ==> #[trigger] final(self).graphs()[t] is None,
    {
        let cg = run_range_analysis(body, self.essa_id, self.ssa_id);
        while self.fn_graphs.len() <= fn_id
            invariant
                fn_id < usize::MAX,
                self.wf(),
                old(self).fn_graphs@.len() <= self.fn_graphs@.len(),
                self.fn_graphs@.len() <= fn_id + 1 || self.fn_graphs@.len() == old(
                    self,
                ).fn_graphs@.len(),
                forall|t: int|
                    0 <= t < old(self).fn_graphs@.len() ==> #[trigger] self.fn_graphs@[t] == old(
                        self,
                    ).fn_graphs@[t],
                forall|t: int|
                    old(self).fn_graphs@.len() <= t < self.fn_graphs@.len()
                        ==> #[trigger] self.fn_graphs@[t] is None,
            decreases fn_id + 1 - self.fn_graphs.len(),
        {
            self.fn_graphs.push(Option::None);
            proof {
                assert forall|t: int|
                    0 <= t < self.graphs().len() && (#[trigger] self.graphs()[t]) is Some
                        implies self.graphs()[t].unwrap().wf() by {
                    if t < self.graphs().len() - 1 {
                    }
                }
            }
        }
        let ghost grown = *self;
        self.fn_graphs.set(fn_id, Option::Some(cg));
        proof {
            assert forall|t: int|
                0 <= t < self.graphs().len() && (#[trigger] self.graphs()[t]) is Some
                    implies self.graphs()[t].unwrap().wf() by {
                if t != fn_id as int {
                    assert(self.graphs()[t] == grown.graphs()[t]);
                }
            }
        }
    }

    /// The resolved range of one local of one function.
    pub fn get_fn_local_range(&self, fn_id: usize, local: usize) -> (r: Option<Range>)
        requires
            self.wf(),
        ensures
            fn_id < self.graphs().len() && (self.graphs()[fn_id as int] is Some) && local
                < self.graphs()[fn_id as int].unwrap().n() && (self.graphs()[fn_id as int].unwrap()
                .vars@[local as int] is Some) ==> r == Option::Some(
                self.graphs()[fn_id as int].unwrap().vars@[local as int].unwrap().range,
            ),
            fn_id >= self.graphs().len() || (self.graphs()[fn_id as int] is None) || local as int
                >= self.graphs()[fn_id as int].unwrap().n() || (self.graphs()[fn_id as int]
                .unwrap().vars@[local as int] is None) ==> r is None,
    {
        if fn_id < self.fn_graphs.len() {
            match &self.fn_graphs[fn_id] {
                Option::Some(cg) => cg.get_range(local),
                Option::None => Option::None,
            }
        } else {
            Option::None
        }
    }

    /// The resolved graph of one function.
    pub fn get_fn_range(&self, fn_id: usize) -> (r: Option<&ConstraintGraph>)
        requires
            self.wf(),
        ensures
            r is Some <==> fn_id < self.graphs().len() && self.graphs()[fn_id as int] is Some,
            r is Some ==> r.unwrap().wf() && *r.unwrap() == self.graphs()[fn_id as int].unwrap(),
    {
        if fn_id < self.fn_graphs.len() {
            match &self.fn_graphs[fn_id] {
                Option::Some(cg) => {
                    proof {
                        assert(self.graphs()[fn_id as int] is Some);
                    }
                    Option::Some(cg)
                },
                Option::None => Option::None,
            }
        } else {
            Option::None
        }
    }
}

} // verus!
