//! Intraprocedural alias analysis.
//!
//! A forward dataflow over one function's control-flow graph with the
//! union-find alias domain as abstract state.  Places are registered
//! field-sensitively; transfer functions handle plain assignments
//! (kill-then-gen), reference taking, field projections, aggregate
//! construction and calls; block states are joined at merge points and
//! iterated to a fixpoint under a bounded pass count.  At each return
//! point the state is projected to a function summary.

use vstd::prelude::*;

use crate::alias_domain::AliasDomain;
use crate::alias_summary::{AliasPair, FnAliasPairs};
use crate::extraction::extract_summary;
use crate::ir::{FnBody, Operand, Place, ProjElem, Rvalue, Statement, Terminator};
use crate::places::PlaceId;

verus! {

/// Pass cap for the dataflow fixpoint: a safety valve against
/// non-convergent inputs, leaving a sound but coarser result when hit.
pub const DATAFLOW_PASS_CAP: usize = 100;

/// Field-sensitive place table: every place seen by the analysis gets a
/// dense index.
pub struct PlaceInfo {
    index_to_place: Vec<PlaceId>,
    may_drop: Vec<bool>,
    need_drop: Vec<bool>,
}

/// Exact structural equality of two place identifiers.
fn places_equal(a: &PlaceId, b: &PlaceId) -> (r: bool)
    ensures
        r == (a == b),
    decreases *a,
{
    match (a, b) {
        (PlaceId::Local(x), PlaceId::Local(y)) => x == y,
        (
            PlaceId::Field { base: ba, field_idx: fa },
            PlaceId::Field { base: bb, field_idx: fb },
        ) => fa == fb && places_equal(ba, bb),
        _ => false,
    }
}

impl PlaceInfo {
    /// The registered places, in registration order.
    pub closed spec fn places(self) -> Seq<PlaceId> {
        self.index_to_place@
    }

    /// Registered places are distinct and the drop tables align.
    pub closed spec fn wf(self) -> bool {
        &&& self.may_drop@.len() == self.places().len()
        &&& self.need_drop@.len() == self.places().len()
        &&& forall|i: int, j: int|
            0 <= i < j < self.places().len() ==> self.places()[i] != self.places()[j]
    }

    /// An empty table.
    pub fn new() -> (r: PlaceInfo)
        ensures
            r.wf(),
            r.places().len() == 0,
    {
        PlaceInfo { index_to_place: Vec::new(), may_drop: Vec::new(), need_drop: Vec::new() }
    }

    /// Register a place (idempotently) and return its index.
    pub fn register_place(&mut self, place_id: PlaceId, may_drop: bool, need_drop: bool) -> (idx:
        usize)
        requires
            old(self).wf(),
        ensures
            final(self).wf(),
            idx < final(self).places().len(),
            final(self).places()[idx as int] == place_id,
            old(self).places().contains(place_id) ==> final(self).places() == old(self).places(),
            !old(self).places().contains(place_id) ==> final(self).places() == old(
                self,
            ).places().push(place_id),
    {
        let n = self.index_to_place.len();
        let mut i: usize = 0;
        while i < n
            invariant
                *self == *old(self),
                self.wf(),
                n == self.places().len(),
                i <= n,
                forall|t: int| 0 <= t < i ==> self.places()[t] != place_id,
            decreases n - i,
        {
            if places_equal(&self.index_to_place[i], &place_id) {
                proof {
                    assert(self.places()[i as int] == place_id);
                }
                return i;
            }
            i = i + 1;
        }
        proof {
            if self.places().contains(place_id) {
                let t = choose|t: int|
                    0 <= t < self.places().len() && #[trigger] self.places()[t] == place_id;
            }
        }
        let idx = self.index_to_place.len();
        self.index_to_place.push(place_id);
        self.may_drop.push(may_drop);
        self.need_drop.push(need_drop);
        proof {
            assert forall|a: int, b: int|
                0 <= a < b < self.places().len() implies self.places()[a] != self.places()[b] by {
                if b < self.places().len() - 1 {
                    assert(old(self).places()[a] != old(self).places()[b]);
                }
            }
        }
        idx
    }

    /// The index of a place, if registered.
    pub fn get_index(&self, place_id: &PlaceId) -> (r: Option<usize>)
        requires
            self.wf(),
        ensures
            match r {
                Option::Some(idx) => idx < self.places().len() && self.places()[idx as int]
                    == *place_id,
                Option::None => !self.places().contains(*place_id),
            },
    {
        let n = self.index_to_place.len();
        let mut i: usize = 0;
        while i < n
            invariant
                self.wf(),
                n == self.places().len(),
                i <= n,
                forall|t: int| 0 <= t < i ==> self.places()[t] != *place_id,
            decreases n - i,
        {
            if places_equal(&self.index_to_place[i], place_id) {
                return Option::Some(i);
            }
            i = i + 1;
        }
        proof {
            if self.places().contains(*place_id) {
                let t = choose|t: int|
                    0 <= t < self.places().len() && #[trigger] self.places()[t] == *place_id;
            }
        }
        Option::None
    }

    /// The place at an index, if any.
    pub fn get_place(&self, idx: usize) -> (r: Option<&PlaceId>)
        requires
            self.wf(),
        ensures
            match r {
                Option::Some(p) => idx < self.places().len() && *p == self.places()[idx as int],
                Option::None => idx >= self.places().len(),
            },
    {
        if idx < self.index_to_place.len() {
            Option::Some(&self.index_to_place[idx])
        } else {
            Option::None
        }
    }

    /// May the place at `idx` drop (false when out of range)?
    pub fn may_drop(&self, idx: usize) -> (r: bool)
        requires
            self.wf(),
        ensures
            idx >= self.places().len() ==> r == false,
    {
        if idx < self.may_drop.len() {
            self.may_drop[idx]
        } else {
            false
        }
    }

    /// Does the place at `idx` need drop (false when out of range)?
    pub fn need_drop(&self, idx: usize) -> (r: bool)
        requires
            self.wf(),
        ensures
            idx >= self.places().len() ==> r == false,
    {
        if idx < self.need_drop.len() {
            self.need_drop[idx]
        } else {
            false
        }
    }

    /// Number of registered places.
    pub fn num_places(&self) -> (r: usize)
        ensures
            r == self.places().len(),
    {
        self.index_to_place.len()
    }

    /// The registered places as a vector (for summary extraction).
    pub fn places_vec(&self) -> (r: &Vec<PlaceId>)
        ensures
            r@ == self.places(),
    {
        &self.index_to_place
    }
}

/// The field-sensitive identifier of an IR place: its root local with
/// the field projections applied (other projection kinds do not refine
/// the identifier).
pub open spec fn spec_place_to_id(place: Place) -> PlaceId {
    spec_fold_fields(PlaceId::Local(place.local), place.projection@, 0)
}

/// Apply the field projections of `proj` from index `t` on.
pub open spec fn spec_fold_fields(base: PlaceId, proj: Seq<ProjElem>, t: int) -> PlaceId
    decreases proj.len() - t,
{
    if t < 0 || t >= proj.len() {
        base
    } else {
        let next = match proj[t] {
            ProjElem::Field(f) => PlaceId::Field { base: Box::new(base), field_idx: f },
            _ => base,
        };
        spec_fold_fields(next, proj, t + 1)
    }
}

/// Build the field-sensitive identifier of an IR place.
pub fn place_to_id(place: &Place) -> (r: PlaceId)
    ensures
        r == spec_place_to_id(*place),
{
    let mut id = PlaceId::Local(place.local);
    let mut t: usize = 0;
    while t < place.projection.len()
        invariant
            t <= place.projection@.len(),
            spec_fold_fields(id, place.projection@, t as int) == spec_place_to_id(*place),
        decreases place.projection.len() - t,
    {
        match place.projection[t] {
            ProjElem::Field(f) => {
                id = PlaceId::Field { base: Box::new(id), field_idx: f };
            },
            _ => {},
        }
        t = t + 1;
    }
    id
}

/// The representative of `k` after `lv` was reset to a singleton: `lv`
/// when `k`'s old parent chain ran through `lv`, its old representative
/// otherwise.
pub open spec fn spec_killed_rep(old_state: AliasDomain, lv: int, k: int) -> int {
    if old_state.reaches_through(k, lv) {
        lv
    } else {
        old_state.rep(k)
    }
}

/// The representative of `k` after `lv` was killed and then united with
/// `rv`: the two killed classes of `lv` and `rv` merge, every other
/// class keeps its killed representative.
pub open spec fn spec_assign_rep(
    old_state: AliasDomain,
    new_state: AliasDomain,
    lv: int,
    rv: int,
    k: int,
) -> int {
    let kk = spec_killed_rep(old_state, lv, k);
    if kk == lv || kk == spec_killed_rep(old_state, lv, rv) {
        new_state.rep(lv)
    } else {
        kk
    }
}

/// Assignment transfer `lv = rv`: kill the existing aliases of `lv`,
/// then record `lv` aliased with `rv`.  The resulting relation is
/// exactly the singleton reset composed with the union — unlike
/// `transfer_ref`, the target's old aliases are gone.
pub fn transfer_assign(state: &mut AliasDomain, lv: usize, rv: usize)
    requires
        old(state).wf(),
        lv < old(state).n(),
        rv < old(state).n(),
    ensures
        final(state).wf(),
        final(state).n() == old(state).n(),
        final(state).aliased(lv as int, rv as int),
        forall|k: int|
            0 <= k < final(state).n() ==> #[trigger] final(state).rep(k) == spec_assign_rep(
                *old(state),
                *final(state),
                lv as int,
                rv as int,
                k,
            ),
{
    state.remove_aliases(lv);
    let ghost mid = *state;
    state.union(lv, rv);
    proof {
        assert forall|k: int| 0 <= k < state.n() implies #[trigger] state.rep(k) == spec_assign_rep(
            *old(state),
            *state,
            lv as int,
            rv as int,
            k,
        ) by {
            assert(mid.rep(k) == spec_killed_rep(*old(state), lv as int, k));
            assert(mid.rep(lv as int) == lv as int);
            assert(state.rep(k) == crate::alias_domain::union_rep(
                *state,
                mid,
                lv as int,
                rv as int,
                k,
            ));
        }
    }
}

/// Reference transfer `lv = &rv`: record the alias without killing
/// either side.
pub fn transfer_ref(state: &mut AliasDomain, lv: usize, rv: usize)
    requires
        old(state).wf(),
        lv < old(state).n(),
        rv < old(state).n(),
    ensures
        final(state).wf(),
        final(state).n() == old(state).n(),
        final(state).aliased(lv as int, rv as int),
        crate::alias_domain::relation_grows(*final(state), *old(state)),
{
    state.union(lv, rv);
}

/// Field-projected assignment: synchronize exactly the two field
/// places, killing only the written field (the kill-then-gen of
/// `transfer_assign` at field granularity).
pub fn transfer_field_assign(state: &mut AliasDomain, lv_field: usize, rv_field: usize)
    requires
        old(state).wf(),
        lv_field < old(state).n(),
        rv_field < old(state).n(),
    ensures
        final(state).wf(),
        final(state).n() == old(state).n(),
        final(state).aliased(lv_field as int, rv_field as int),
        forall|k: int|
            0 <= k < final(state).n() ==> #[trigger] final(state).rep(k) == spec_assign_rep(
                *old(state),
                *final(state),
                lv_field as int,
                rv_field as int,
                k,
            ),
{
    transfer_assign(state, lv_field, rv_field);
}

/// Synchronize two field places without killing.
pub fn sync_fields(state: &mut AliasDomain, lv: usize, rv: usize)
    requires
        old(state).wf(),
        lv < old(state).n(),
        rv < old(state).n(),
    ensures
        final(state).wf(),
        final(state).n() == old(state).n(),
        final(state).aliased(lv as int, rv as int),
        crate::alias_domain::relation_grows(*final(state), *old(state)),
{
    state.union(lv, rv);
}

/// Aggregate transfer `lv = (a, b, ...)`: alias each field of `lv` with
/// the respective operand.
pub fn transfer_aggregate(state: &mut AliasDomain, lv_fields: &Vec<usize>, operands: &Vec<usize>)
    requires
        old(state).wf(),
        lv_fields@.len() == operands@.len(),
        forall|t: int| 0 <= t < lv_fields@.len() ==> (#[trigger] lv_fields@[t]) < old(state).n(),
        forall|t: int| 0 <= t < operands@.len() ==> (#[trigger] operands@[t]) < old(state).n(),
    ensures
        final(state).wf(),
        final(state).n() == old(state).n(),
        crate::alias_domain::relation_grows(*final(state), *old(state)),
        forall|t: int|
            0 <= t < lv_fields@.len() ==> final(state).aliased(
                #[trigger] lv_fields@[t] as int,
                operands@[t] as int,
            ),
{
    let mut i: usize = 0;
    while i < lv_fields.len()
        invariant
            state.wf(),
            state.n() == old(state).n(),
            crate::alias_domain::relation_grows(*state, *old(state)),
            lv_fields@.len() == operands@.len(),
            forall|t: int| 0 <= t < lv_fields@.len() ==> (#[trigger] lv_fields@[t]) < state.n(),
            forall|t: int| 0 <= t < operands@.len() ==> (#[trigger] operands@[t]) < state.n(),
            i <= lv_fields@.len(),
            forall|t: int|
                0 <= t < i ==> state.aliased(#[trigger] lv_fields@[t] as int, operands@[t] as int),
        decreases lv_fields.len() - i,
    {
        let ghost before = *state;
        state.union(lv_fields[i], operands[i]);
        proof {
            assert forall|t: int| 0 <= t < i + 1 implies state.aliased(
                #[trigger] lv_fields@[t] as int,
                operands@[t] as int,
            ) by {
                if t < i {
                    assert(before.aliased(lv_fields@[t] as int, operands@[t] as int));
                }
            }
            assert forall|a: int, b: int|
                0 <= a < state.n() && 0 <= b < state.n() && old(state).aliased(a, b)
                    implies #[trigger] state.aliased(a, b) by {
                assert(before.aliased(a, b));
            }
        }
        i = i + 1;
    }
}

/// The actual place index a summary formal maps to: the call
/// destination for formal 0, the respective argument otherwise (absent
/// when the summary names an argument the call does not pass).
pub open spec fn spec_actual(ret: usize, args: Seq<usize>, formal: usize) -> Option<usize> {
    if formal == 0 {
        Option::Some(ret)
    } else if formal - 1 < args.len() {
        Option::Some(args[formal - 1])
    } else {
        Option::None
    }
}

/// Call transfer: apply a callee summary by substituting the actual
/// argument indices for the summary's formals (index 0 is the return
/// value, `k` the `k`-th argument); facts on deeper field paths are
/// applied to the respective roots.  Every applicable fact ends aliased.
pub fn transfer_call(
    state: &mut AliasDomain,
    ret: usize,
    args: &Vec<usize>,
    summary: &FnAliasPairs,
)
    requires
        old(state).wf(),
        ret < old(state).n(),
        forall|t: int| 0 <= t < args@.len() ==> (#[trigger] args@[t]) < old(state).n(),
    ensures
        final(state).wf(),
        final(state).n() == old(state).n(),
        crate::alias_domain::relation_grows(*final(state), *old(state)),
        forall|t: int|
            0 <= t < summary.keys().len() && spec_actual(
                ret,
                args@,
                (#[trigger] summary.keys()[t]).0,
            ) is Some && spec_actual(ret, args@, summary.keys()[t].1) is Some
                ==> final(state).aliased(
                spec_actual(ret, args@, summary.keys()[t].0).unwrap() as int,
                spec_actual(ret, args@, summary.keys()[t].1).unwrap() as int,
            ),
{
    let facts = summary.aliases();
    let mut i: usize = 0;
    while i < facts.len()
        invariant
            state.wf(),
            state.n() == old(state).n(),
            crate::alias_domain::relation_grows(*state, *old(state)),
            ret < state.n(),
            forall|t: int| 0 <= t < args@.len() ==> (#[trigger] args@[t]) < state.n(),
            i <= facts@.len(),
            facts@.map_values(|p: AliasPair| p.key()) == summary.keys(),
            forall|t: int|
                0 <= t < i && spec_actual(ret, args@, (#[trigger] summary.keys()[t]).0) is Some
                    && spec_actual(ret, args@, summary.keys()[t].1) is Some ==> state.aliased(
                    spec_actual(ret, args@, summary.keys()[t].0).unwrap() as int,
                    spec_actual(ret, args@, summary.keys()[t].1).unwrap() as int,
                ),
        decreases facts.len() - i,
    {
        let left = facts[i].left_local;
        let right = facts[i].right_local;
        let actual_left: Option<usize> = if left == 0 {
            Option::Some(ret)
        } else if left - 1 < args.len() {
            Option::Some(args[left - 1])
        } else {
            Option::None
        };
        let actual_right: Option<usize> = if right == 0 {
            Option::Some(ret)
        } else if right - 1 < args.len() {
            Option::Some(args[right - 1])
        } else {
            Option::None
        };
        proof {
            assert(actual_left == spec_actual(ret, args@, summary.keys()[i as int].0));
            assert(actual_right == spec_actual(ret, args@, summary.keys()[i as int].1));
        }
        match (actual_left, actual_right) {
            (Option::Some(a), Option::Some(b)) => {
                let ghost before = *state;
                state.union(a, b);
                proof {
                    assert forall|x: int, y: int|
                        0 <= x < state.n() && 0 <= y < state.n() && old(state).aliased(x, y)
                            implies #[trigger] state.aliased(x, y) by {
                        assert(before.aliased(x, y));
                    }
                    assert forall|t: int|
                        0 <= t < i + 1 && spec_actual(
                            ret,
                            args@,
                            (#[trigger] summary.keys()[t]).0,
                        ) is Some && spec_actual(ret, args@, summary.keys()[t].1) is Some
                            implies state.aliased(
                        spec_actual(ret, args@, summary.keys()[t].0).unwrap() as int,
                        spec_actual(ret, args@, summary.keys()[t].1).unwrap() as int,
                    ) by {
                        if t < i {
                            assert(before.aliased(
                                spec_actual(ret, args@, summary.keys()[t].0).unwrap() as int,
                                spec_actual(ret, args@, summary.keys()[t].1).unwrap() as int,
                            ));
                        }
                    }
                }
            },
            _ => {},
        }
        i = i + 1;
    }
}

/// The intraprocedural analyzer for one function body.
pub struct FnAliasAnalyzer {
    /// The place table built from the body.
    pub place_info: PlaceInfo,
    /// The function's argument count.
    pub arg_count: usize,
}

impl FnAliasAnalyzer {
    /// Prepare an analyzer for a body: register the return value, every
    /// argument, and every place the statements mention.
    pub fn new(body: &FnBody) -> (r: FnAliasAnalyzer)
        ensures
            r.place_info.wf(),
    {
        let mut info = PlaceInfo::new();
        let mut l: usize = 0;
        // Return value and arguments first, so that place index order
        // matches local order for them.
        while l < body.local_count
            invariant
                info.wf(),
                l <= body.local_count,
            decreases body.local_count - l,
        {
            info.register_place(PlaceId::Local(l), false, false);
            l = l + 1;
        }
        let mut b: usize = 0;
        while b < body.blocks.len()
            invariant
                info.wf(),
                b <= body.blocks@.len(),
            decreases body.blocks.len() - b,
        {
            let blk = &body.blocks[b];
            let mut st: usize = 0;
            while st < blk.statements.len()
                invariant
                    info.wf(),
                    st <= blk.statements@.len(),
                decreases blk.statements.len() - st,
            {
                match &blk.statements[st] {
                    Statement::Assign(place, rvalue) => {
                        info.register_place(place_to_id(place), false, false);
                        register_rvalue_places(&mut info, rvalue);
                    },
                    Statement::Nop => {},
                }
                st = st + 1;
            }
            match &blk.terminator {
                Terminator::Call { args, destination, .. } => {
                    info.register_place(place_to_id(destination), false, false);
                    let mut a: usize = 0;
                    while a < args.len()
                        invariant
                            info.wf(),
                            a <= args@.len(),
                        decreases args.len() - a,
                    {
                        register_operand_place(&mut info, &args[a]);
                        a = a + 1;
                    }
                },
                _ => {},
            }
            b = b + 1;
        }
        FnAliasAnalyzer { place_info: info, arg_count: body.arg_count }
    }

    /// Read access to the place table.
    pub fn place_info(&self) -> (r: &PlaceInfo)
        ensures
            r == &self.place_info,
    {
        &self.place_info
    }
}

/// Register the places an rvalue mentions.
fn register_rvalue_places(info: &mut PlaceInfo, rvalue: &Rvalue)
    requires
        old(info).wf(),
    ensures
        final(info).wf(),
{
    match rvalue {
        Rvalue::Use(op) => register_operand_place(info, op),
        Rvalue::Repeat(op) => register_operand_place(info, op),
        Rvalue::Ref(_, p) => {
            info.register_place(place_to_id(p), false, false);
        },
        Rvalue::Len(p) => {
            info.register_place(place_to_id(p), false, false);
        },
        Rvalue::Cast(op) => register_operand_place(info, op),
        Rvalue::BinaryOp(_, op1, op2) => {
            register_operand_place(info, op1);
            register_operand_place(info, op2);
        },
        Rvalue::NullaryOp => {},
        Rvalue::UnaryOp(_, op) => register_operand_place(info, op),
        Rvalue::Discriminant(p) => {
            info.register_place(place_to_id(p), false, false);
        },
        Rvalue::Aggregate(_, ops) => {
            let mut i: usize = 0;
            while i < ops.len()
                invariant
                    info.wf(),
                    i <= ops@.len(),
                decreases ops.len() - i,
            {
                register_operand_place(info, &ops[i]);
                i = i + 1;
            }
        },
        Rvalue::ShallowInitBox(op) => register_operand_place(info, op),
        Rvalue::CopyForDeref(p) => {
            info.register_place(place_to_id(p), false, false);
        },
        Rvalue::RawPtr(p) => {
            info.register_place(place_to_id(p), false, false);
        },
        Rvalue::ThreadLocalRef => {},
    }
}

/// Register the place an operand reads, if any.
fn register_operand_place(info: &mut PlaceInfo, op: &Operand)
    requires
        old(info).wf(),
    ensures
        final(info).wf(),
{
    match op {
        Operand::Copy(p) => {
            info.register_place(place_to_id(p), false, false);
        },
        Operand::Move(p) => {
            info.register_place(place_to_id(p), false, false);
        },
        Operand::Constant(_) => {},
    }
}

/// Apply one statement's transfer function.
#[verifier::loop_isolation(false)]
fn apply_statement(state: &mut AliasDomain, info: &PlaceInfo, stmt: &Statement)
    requires
        old(state).wf(),
        info.wf(),
        old(state).n() == info.places().len(),
    ensures
        final(state).wf(),
        final(state).n() == old(state).n(),
{
    match stmt {
        Statement::Assign(place, rvalue) => {
            let lv = match info.get_index(&place_to_id(place)) {
                Option::Some(i) => i,
                Option::None => { return ; },
            };
            match rvalue {
                Rvalue::Use(op) | Rvalue::Cast(op) | Rvalue::Repeat(op) | Rvalue::ShallowInitBox(
                    op,
                ) => {
                    match operand_index(info, op) {
                        Option::Some(rv) => transfer_assign(state, lv, rv),
                        Option::None => state.remove_aliases(lv),
                    }
                },
                Rvalue::Ref(_, p2) | Rvalue::RawPtr(p2) => {
                    match info.get_index(&place_to_id(p2)) {
                        Option::Some(rv) => transfer_ref(state, lv, rv),
                        Option::None => {},
                    }
                },
                Rvalue::CopyForDeref(p2) => {
                    match info.get_index(&place_to_id(p2)) {
                        Option::Some(rv) => transfer_assign(state, lv, rv),
                        Option::None => state.remove_aliases(lv),
                    }
                },
                Rvalue::Aggregate(_, ops) => {
                    // Alias each field of the target with its operand.
                    let mut lv_fields: Vec<usize> = Vec::new();
                    let mut op_indices: Vec<usize> = Vec::new();
                    let mut k: usize = 0;
                    while k < ops.len()
                        invariant
                            state.wf(),
                            state.n() == info.places().len(),
                            info.wf(),
                            lv < state.n(),
                            k <= ops@.len(),
                            lv_fields@.len() == op_indices@.len(),
                            forall|t: int|
                                0 <= t < lv_fields@.len() ==> (#[trigger] lv_fields@[t])
                                    < state.n(),
                            forall|t: int|
                                0 <= t < op_indices@.len() ==> (#[trigger] op_indices@[t])
                                    < state.n(),
                        decreases ops.len() - k,
                    {
                        match operand_index(info, &ops[k]) {
                            Option::Some(rv) => {
                                match info.get_index(
                                    &place_to_id(place).project_field(k),
                                ) {
                                    Option::Some(fidx) => {
                                        lv_fields.push(fidx);
                                        op_indices.push(rv);
                                    },
                                    Option::None => {},
                                }
                            },
                            Option::None => {},
                        }
                        k = k + 1;
                    }
                    transfer_aggregate(state, &lv_fields, &op_indices);
                },
                _ => {
                    // A computed value (arithmetic and the like) aliases
                    // nothing: kill the target.
                    state.remove_aliases(lv);
                },
            }
        },
        Statement::Nop => {},
    }
}

/// The place-table index of an operand's place, if it reads one.
fn operand_index(info: &PlaceInfo, op: &Operand) -> (r: Option<usize>)
    requires
        info.wf(),
    ensures
        match r {
            Option::Some(i) => i < info.places().len(),
            Option::None => true,
        },
{
    match op {
        Operand::Copy(p) => info.get_index(&place_to_id(p)),
        Operand::Move(p) => info.get_index(&place_to_id(p)),
        Operand::Constant(_) => Option::None,
    }
}

/// Run the forward dataflow over a body and extract the alias summary
/// at its return points.  Calls are handled with the given summaries
/// (indexed by function identity); a missing summary kills the call
/// destination.
#[verifier::loop_isolation(false)]
pub fn analyze_fn_body(body: &FnBody, summaries: &Vec<Option<FnAliasPairs>>) -> (summary:
    FnAliasPairs)
    ensures
        summary.spec_arg_size() == body.arg_count,
        summary.no_duplicates(),
        // Every published fact roots at an argument or the return value.
        forall|t: int|
            0 <= t < summary.keys().len() ==> (#[trigger] summary.keys()[t]).0 <= body.arg_count
                && summary.keys()[t].1 <= body.arg_count,
{
    let analyzer = FnAliasAnalyzer::new(body);
    let info = &analyzer.place_info;
    let n = info.num_places();
    let nblocks = body.blocks.len();
    // One outgoing state per block.
    let mut outs: Vec<AliasDomain> = Vec::new();
    let mut b: usize = 0;
    while b < nblocks
        invariant
            b <= nblocks,
            outs@.len() == b,
            info.wf(),
            forall|t: int|
                0 <= t < outs@.len() ==> (#[trigger] outs@[t]).wf() && outs@[t].n()
                    == info.places().len(),
        decreases nblocks - b,
    {
        outs.push(AliasDomain::new(n));
        b = b + 1;
    }
    // Chaotic iteration with a bounded pass count.
    let mut pass: usize = 0;
    let mut changed = true;
    while changed && pass < DATAFLOW_PASS_CAP
        invariant
            info.wf(),
            nblocks == body.blocks@.len(),
            outs@.len() == nblocks,
            pass <= DATAFLOW_PASS_CAP,
            forall|t: int|
                0 <= t < outs@.len() ==> (#[trigger] outs@[t]).wf() && outs@[t].n()
                    == info.places().len(),
        decreases DATAFLOW_PASS_CAP - pass,
    {
        changed = false;
        pass = pass + 1;
        let mut cur: usize = 0;
        while cur < nblocks
            invariant
                info.wf(),
                nblocks == body.blocks@.len(),
                outs@.len() == nblocks,
                cur <= nblocks,
                forall|t: int|
                    0 <= t < outs@.len() ==> (#[trigger] outs@[t]).wf() && outs@[t].n()
                        == info.places().len(),
            decreases nblocks - cur,
        {
            // Join the predecessors' outgoing states.
            let mut state = AliasDomain::new(n);
            let mut p: usize = 0;
            while p < nblocks
                invariant
                    info.wf(),
                    nblocks == body.blocks@.len(),
                    outs@.len() == nblocks,
                    cur < nblocks,
                    p <= nblocks,
                    state.wf(),
                    state.n() == info.places().len(),
                    forall|t: int|
                        0 <= t < outs@.len() ==> (#[trigger] outs@[t]).wf() && outs@[t].n()
                            == info.places().len(),
                decreases nblocks - p,
            {
                if block_targets(&body.blocks[p].terminator, cur) {
                    state.join(&outs[p]);
                }
                p = p + 1;
            }
            // Apply the block's statements and terminator.
            let blk = &body.blocks[cur];
            let mut st: usize = 0;
            while st < blk.statements.len()
                invariant
                    info.wf(),
                    state.wf(),
                    state.n() == info.places().len(),
                    st <= blk.statements@.len(),
                    blk == body.blocks@[cur as int],
                    cur < nblocks,
                    nblocks == body.blocks@.len(),
                decreases blk.statements.len() - st,
            {
                apply_statement(&mut state, info, &blk.statements[st]);
                st = st + 1;
            }
            match &blk.terminator {
                Terminator::Call { func, args, destination, .. } => {
                    let dest = info.get_index(&place_to_id(destination));
                    let summary_opt: Option<&FnAliasPairs> = match func {
                        crate::ir::CallFunc::Direct(id) => {
                            if *id < summaries.len() {
                                match &summaries[*id] {
                                    Option::Some(s) => Option::Some(s),
                                    Option::None => Option::None,
                                }
                            } else {
                                Option::None
                            }
                        },
                        crate::ir::CallFunc::Operand(_) => Option::None,
                    };
                    match dest {
                        Option::Some(d) => {
                            match summary_opt {
                                Option::Some(s) => {
                                    let mut arg_indices: Vec<usize> = Vec::new();
                                    let mut a: usize = 0;
                                    while a < args.len()
                                        invariant
                                            info.wf(),
                                            state.wf(),
                                            state.n() == info.places().len(),
                                            a <= args@.len(),
                                            forall|t: int|
                                                0 <= t < arg_indices@.len() ==> (
                                                #[trigger] arg_indices@[t]) < state.n(),
                                        decreases args.len() - a,
                                    {
                                        match operand_index(info, &args[a]) {
                                            Option::Some(i) => arg_indices.push(i),
                                            Option::None => {},
                                        }
                                        a = a + 1;
                                    }
                                    transfer_call(&mut state, d, &arg_indices, s);
                                },
                                Option::None => {
                                    state.remove_aliases(d);
                                },
                            }
                        },
                        Option::None => {},
                    }
                },
                _ => {},
            }
            // Merge into the stored outgoing state.
            let mut tmp = AliasDomain::new(n);
            outs.set_and_swap(cur, &mut tmp);
            let merged_changed = tmp.join(&state);
            outs.set_and_swap(cur, &mut tmp);
            if merged_changed {
                changed = true;
            }
            cur = cur + 1;
        }
    }
    // Extract and join the summaries at every return point.
    let mut summary = FnAliasPairs::new(body.arg_count);
    let mut rb: usize = 0;
    while rb < nblocks
        invariant
            info.wf(),
            nblocks == body.blocks@.len(),
            outs@.len() == nblocks,
            rb <= nblocks,
            summary.spec_arg_size() == body.arg_count,
            summary.no_duplicates(),
            forall|t: int|
                0 <= t < summary.keys().len() ==> (#[trigger] summary.keys()[t]).0
                    <= body.arg_count && summary.keys()[t].1 <= body.arg_count,
            forall|t: int|
                0 <= t < outs@.len() ==> (#[trigger] outs@[t]).wf() && outs@[t].n()
                    == info.places().len(),
        decreases nblocks - rb,
    {
        if matches!(&body.blocks[rb].terminator, Terminator::Return) {
            let per_return = extract_summary(&outs[rb], info.places_vec(), body.arg_count);
            let facts = per_return.aliases();
            let mut f: usize = 0;
            while f < facts.len()
                invariant
                    f <= facts@.len(),
                    summary.spec_arg_size() == body.arg_count,
                    summary.no_duplicates(),
                    forall|t: int|
                        0 <= t < summary.keys().len() ==> (#[trigger] summary.keys()[t]).0
                            <= body.arg_count && summary.keys()[t].1 <= body.arg_count,
                decreases facts.len() - f,
            {
                proof {
                    assert(facts@.map_values(|p: AliasPair| p.key())[f as int] == facts@[f as int]
                        .key());
                    assert(facts@[f as int].key() == per_return.keys()[f as int]);
                }
                summary.add_alias(facts[f].clone());
                f = f + 1;
            }
        }
        rb = rb + 1;
    }
    summary
}

/// Does the terminator pass control to block `target`?
pub open spec fn spec_block_targets(term: Terminator, target: usize) -> bool {
    match term {
        Terminator::Goto(t) => t == target,
        Terminator::SwitchInt { false_target, true_target, .. } => false_target == target
            || true_target == target,
        Terminator::Call { target: t, .. } => t == target,
        Terminator::Return => false,
        Terminator::Unreachable => false,
    }
}

/// Does the terminator pass control to block `target`?
fn block_targets(term: &Terminator, target: usize) -> (r: bool)
    ensures
        r == spec_block_targets(*term, target),
{
    match term {
        Terminator::Goto(t) => *t == target,
        Terminator::SwitchInt { false_target, true_target, .. } => *false_target == target
            || *true_target == target,
        Terminator::Call { target: t, .. } => *t == target,
        Terminator::Return => false,
        Terminator::Unreachable => false,
    }
}

} // verus!
