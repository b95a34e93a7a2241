//! Field-sensitive storage-location identifiers.
//!
//! A storage location is either a root variable (a local, identified by its
//! index) or a field projection rooted at another location.  Root index 0
//! denotes the function's return value, indices 1..=N its N formal
//! arguments, and higher indices temporaries.

use vstd::prelude::*;

verus! {

/// Place identifier supporting field-sensitive analysis.
#[derive(Debug, PartialEq, Eq, Hash)]
pub enum PlaceId {
    /// A local variable (e.g., `_1`).
    Local(usize),
    /// A field projection (e.g., `_1.0`).
    Field { base: Box<PlaceId>, field_idx: usize },
}

impl Clone for PlaceId {
    fn clone(&self) -> (r: Self)
        ensures
            r == *self,
        decreases *self,
    {
        match self {
            PlaceId::Local(idx) => PlaceId::Local(*idx),
            PlaceId::Field { base, field_idx } => PlaceId::Field {
                base: Box::new((**base).clone()),
                field_idx: *field_idx,
            },
        }
    }
}

impl PlaceId {
    /// The root local underneath all field projections.
    pub open spec fn spec_root_local(self) -> usize
        decreases self,
    {
        match self {
            PlaceId::Local(idx) => idx,
            PlaceId::Field { base, .. } => base.spec_root_local(),
        }
    }

    /// The field path from the root to this place, in root-to-leaf order.
    pub open spec fn spec_field_path(self) -> Seq<usize>
        decreases self,
    {
        match self {
            PlaceId::Local(_) => Seq::empty(),
            PlaceId::Field { base, field_idx } => base.spec_field_path().push(field_idx),
        }
    }

    /// Number of projection steps above the root.
    pub open spec fn depth(self) -> nat
        decreases self,
    {
        match self {
            PlaceId::Local(_) => 0,
            PlaceId::Field { base, .. } => base.depth() + 1,
        }
    }

    /// Get the root local of this place.
    pub fn root_local(&self) -> (r: usize)
        ensures
            r == self.spec_root_local(),
        decreases *self,
    {
        match self {
            PlaceId::Local(idx) => *idx,
            PlaceId::Field { base, .. } => base.root_local(),
        }
    }

    /// Create a field projection of this place.
    pub fn project_field(&self, field_idx: usize) -> (r: PlaceId)
        ensures
            r == (PlaceId::Field { base: Box::new(*self), field_idx }),
            r.spec_root_local() == self.spec_root_local(),
            r.spec_field_path() == self.spec_field_path().push(field_idx),
    {
        PlaceId::Field { base: Box::new(self.clone()), field_idx }
    }
}

/// Extract root local and field path from a place.
///
/// The path comes back in leaf-to-root order, mirroring the traversal.
pub fn extract_fields(place: &PlaceId) -> (r: (usize, Vec<usize>))
    ensures
        r.0 == place.spec_root_local(),
        r.1@ == place.spec_field_path().reverse(),
{
    let mut fields: Vec<usize> = Vec::new();
    let mut current: &PlaceId = place;
    loop
        invariant
            current.spec_root_local() == place.spec_root_local(),
            place.spec_field_path().reverse() =~= fields@ + current.spec_field_path().reverse(),
        decreases current.depth(),
    {
        match current {
            PlaceId::Local(idx) => {
                assert(place.spec_field_path().reverse() =~= fields@);
                return (*idx, fields);
            },
            PlaceId::Field { base, field_idx } => {
                assert(current.spec_field_path().reverse() =~= seq![*field_idx]
                    + base.spec_field_path().reverse());
                fields.push(*field_idx);
                assert(place.spec_field_path().reverse() =~= fields@
                    + base.spec_field_path().reverse());
                current = base;
            },
        }
    }
}

/// Extract only the field path of a place, in root-to-leaf order.
///
/// Example: `_15.0.1` yields `[0, 1]`.
pub fn extract_field_path(place: &PlaceId) -> (r: Vec<usize>)
    ensures
        r@ == place.spec_field_path(),
{
    let (_, leaf_to_root) = extract_fields(place);
    let mut fields: Vec<usize> = Vec::new();
    let n = leaf_to_root.len();
    let mut i: usize = n;
    while i > 0
        invariant
            i <= n,
            n == leaf_to_root.len(),
            fields@ == leaf_to_root@.subrange(i as int, n as int).reverse(),
        decreases i,
    {
        i = i - 1;
        let v = leaf_to_root[i];
        fields.push(v);
        assert(leaf_to_root@.subrange(i as int, n as int).reverse() =~= leaf_to_root@.subrange(
            i + 1,
            n as int,
        ).reverse().push(leaf_to_root@[i as int]));
    }
    assert(leaf_to_root@.subrange(0, n as int) =~= leaf_to_root@);
    assert(fields@ =~= place.spec_field_path()) by {
        assert(leaf_to_root@.reverse() =~= place.spec_field_path());
    }
    fields
}

/// `prefix` is a (possibly equal) prefix of `full`.
pub open spec fn spec_is_prefix(prefix: Seq<usize>, full: Seq<usize>) -> bool {
    prefix.len() <= full.len() && prefix =~= full.subrange(0, prefix.len() as int)
}

/// `prefix` is a strictly shorter prefix of `full`.
pub open spec fn spec_is_strict_prefix(prefix: Seq<usize>, full: Seq<usize>) -> bool {
    prefix.len() < full.len() && prefix =~= full.subrange(0, prefix.len() as int)
}

/// Check whether one field path is a prefix of another (equality allowed).
///
/// Examples: `is_field_prefix([], [0])` and `is_field_prefix([0], [0, 1])`
/// hold; `is_field_prefix([0], [1])` does not.
pub fn is_field_prefix(prefix: &[usize], full: &[usize]) -> (r: bool)
    ensures
        r == spec_is_prefix(prefix@, full@),
{
    if prefix.len() > full.len() {
        return false;
    }
    let mut i: usize = 0;
    while i < prefix.len()
        invariant
            i <= prefix.len() <= full.len(),
            forall|j: int| 0 <= j < i ==> prefix@[j] == full@[j],
        decreases prefix.len() - i,
    {
        if prefix[i] != full[i] {
            assert(!spec_is_prefix(prefix@, full@)) by {
                assert(prefix@[i as int] != full@.subrange(0, prefix@.len() as int)[i as int]);
            }
            return false;
        }
        i = i + 1;
    }
    assert(prefix@ =~= full@.subrange(0, prefix@.len() as int));
    true
}

/// Check whether `prefix` is a strict prefix of `full`.
///
/// Examples: `is_strict_prefix([0], [0, 1])` and `is_strict_prefix([], [0])`
/// hold; `is_strict_prefix([0], [0])` and `is_strict_prefix([0], [1])` do
/// not.
pub fn is_strict_prefix(prefix: &[usize], full: &[usize]) -> (r: bool)
    ensures
        r == spec_is_strict_prefix(prefix@, full@),
{
    if prefix.len() >= full.len() {
        return false;
    }
    is_field_prefix(prefix, full)
}

} // verus!
