//! Function alias summaries.
//!
//! A summary is a set of alias facts relating a function's arguments and
//! its return value.  Facts carry a root local on each side together with
//! a field path; a retained set is kept minimal: no self-aliases, and no
//! fact whose field paths refine another retained fact's paths over the
//! same pair of roots.

use vstd::prelude::*;

use crate::places::{spec_is_prefix, spec_is_strict_prefix, is_field_prefix, is_strict_prefix};

verus! {

/// An unordered alias fact: `left_local` (under `lhs_fields`) may overlap
/// `right_local` (under `rhs_fields`).
#[derive(Debug, PartialEq, Eq)]
pub struct AliasPair {
    pub left_local: usize,
    pub right_local: usize,
    pub lhs_fields: Vec<usize>,
    pub rhs_fields: Vec<usize>,
}

impl AliasPair {
    /// The mathematical content of the fact.
    pub open spec fn key(self) -> (usize, usize, Seq<usize>, Seq<usize>) {
        (self.left_local, self.right_local, self.lhs_fields@, self.rhs_fields@)
    }

    /// A fresh fact between two root locals with empty field paths.
    pub fn new(left_local: usize, right_local: usize) -> (r: AliasPair)
        ensures
            r.key() == (left_local, right_local, Seq::<usize>::empty(), Seq::<usize>::empty()),
    {
        let r = AliasPair { left_local, right_local, lhs_fields: Vec::new(), rhs_fields: Vec::new() };
        proof {
            assert(r.lhs_fields@ =~= Seq::<usize>::empty());
            assert(r.rhs_fields@ =~= Seq::<usize>::empty());
        }
        r
    }
}

impl Clone for AliasPair {
    /// A clone carries the same fact.
    fn clone(&self) -> (r: Self)
        ensures
            r.key() == self.key(),
    {
        let r = AliasPair {
            left_local: self.left_local,
            right_local: self.right_local,
            lhs_fields: clone_usize_vec(&self.lhs_fields),
            rhs_fields: clone_usize_vec(&self.rhs_fields),
        };
        r
    }
}

/// Clone a vector of indices, keeping its contents exactly.
fn clone_usize_vec(v: &Vec<usize>) -> (r: Vec<usize>)
    ensures
        r@ == v@,
{
    let mut r: Vec<usize> = Vec::new();
    let mut i: usize = 0;
    while i < v.len()
        invariant
            i <= v.len(),
            r@ == v@.subrange(0, i as int),
        decreases v.len() - i,
    {
        r.push(v[i]);
        assert(v@.subrange(0, i + 1 as int) =~= v@.subrange(0, i as int).push(v@[i as int]));
        i = i + 1;
    }
    assert(v@.subrange(0, v@.len() as int) =~= v@);
    r
}

/// Exact content equality of two index vectors.
pub(crate) fn usize_vecs_equal(a: &Vec<usize>, b: &Vec<usize>) -> (r: bool)
    ensures
        r == (a@ == b@),
{
    if a.len() != b.len() {
        return false;
    }
    let mut i: usize = 0;
    while i < a.len()
        invariant
            a@.len() == b@.len(),
            i <= a.len(),
            forall|t: int| 0 <= t < i ==> a@[t] == b@[t],
        decreases a.len() - i,
    {
        if a[i] != b[i] {
            return false;
        }
        i = i + 1;
    }
    proof {
        assert(a@ =~= b@);
    }
    true
}

/// Exact content equality of two alias facts.
pub fn pairs_equal(a: &AliasPair, b: &AliasPair) -> (r: bool)
    ensures
        r == (a.key() == b.key()),
{
    let r = a.left_local == b.left_local && a.right_local == b.right_local && usize_vecs_equal(
        &a.lhs_fields,
        &b.lhs_fields,
    ) && usize_vecs_equal(&a.rhs_fields, &b.rhs_fields);
    proof {
        if a.left_local == b.left_local && a.right_local == b.right_local && a.lhs_fields@
            == b.lhs_fields@ && a.rhs_fields@ == b.rhs_fields@ {
            assert(a.key() == b.key());
        }
    }
    r
}

/// The mathematical content of a sequence of alias facts.
pub open spec fn keys_of(s: Seq<AliasPair>) -> Seq<(usize, usize, Seq<usize>, Seq<usize>)> {
    s.map_values(|p: AliasPair| p.key())
}

/// No two entries of `s` are equal.
pub open spec fn seq_no_dup(s: Seq<(usize, usize, Seq<usize>, Seq<usize>)>) -> bool {
    forall|i: int, j: int| 0 <= i < j < s.len() ==> s[i] != s[j]
}

/// Insert a key only if it is not present yet (set semantics over an
/// ordered sequence).
pub open spec fn insert_unique(
    s: Seq<(usize, usize, Seq<usize>, Seq<usize>)>,
    k: (usize, usize, Seq<usize>, Seq<usize>),
) -> Seq<(usize, usize, Seq<usize>, Seq<usize>)> {
    if s.contains(k) {
        s
    } else {
        s.push(k)
    }
}

/// A summary: the alias facts found for one function, with its argument
/// count.
#[derive(Debug)]
pub struct FnAliasPairs {
    arg_size: usize,
    aliases: Vec<AliasPair>,
}

impl FnAliasPairs {
    /// The facts' mathematical content, in order.
    pub closed spec fn keys(self) -> Seq<(usize, usize, Seq<usize>, Seq<usize>)> {
        self.aliases@.map_values(|p: AliasPair| p.key())
    }

    /// The stored argument count.
    pub closed spec fn spec_arg_size(self) -> usize {
        self.arg_size
    }

    /// No two stored facts have the same content.
    pub open spec fn no_duplicates(self) -> bool {
        forall|i: int, j: int|
            0 <= i < j < self.keys().len() ==> self.keys()[i] != self.keys()[j]
    }

    /// An empty summary for a function with `arg_size` arguments.
    pub fn new(arg_size: usize) -> (r: FnAliasPairs)
        ensures
            r.spec_arg_size() == arg_size,
            r.keys() =~= Seq::<(usize, usize, Seq<usize>, Seq<usize>)>::empty(),
            r.no_duplicates(),
    {
        FnAliasPairs { arg_size, aliases: Vec::new() }
    }

    /// Add a fact unless an equal one is already present.
    pub fn add_alias(&mut self, alias: AliasPair)
        requires
            old(self).no_duplicates(),
        ensures
            final(self).keys() == insert_unique(old(self).keys(), alias.key()),
            final(self).spec_arg_size() == old(self).spec_arg_size(),
            final(self).no_duplicates(),
    {
        let ghost orig = *old(self);
        let mut i: usize = 0;
        let n = self.aliases.len();
        while i < n
            invariant
                orig.no_duplicates(),
                *self == orig,
                n == self.aliases.len(),
                i <= n,
                forall|t: int| 0 <= t < i ==> self.keys()[t] != alias.key(),
            decreases n - i,
        {
            if pairs_equal(&self.aliases[i], &alias) {
                proof {
                    assert(self.keys()[i as int] == alias.key());
                    assert(self.keys().contains(alias.key()));
                    assert(self.keys() == insert_unique(orig.keys(), alias.key()));
                    assert(self.no_duplicates());
                }
                return ;
            }
            i = i + 1;
        }
        proof {
            if self.keys().contains(alias.key()) {
                let t = choose|t: int|
                    0 <= t < self.keys().len() && #[trigger] self.keys()[t] == alias.key();
            }
            assert(!self.keys().contains(alias.key()));
        }
        let ghost before = self.keys();
        self.aliases.push(alias);
        proof {
            assert(self.keys() =~= before.push(alias.key()));
        }
    }

    /// Read access to the stored facts.
    pub fn aliases(&self) -> (r: &Vec<AliasPair>)
        ensures
            r@.map_values(|p: AliasPair| p.key()) == self.keys(),
    {
        &self.aliases
    }

    /// The stored argument count.
    pub fn arg_size(&self) -> (r: usize)
        ensures
            r == self.spec_arg_size(),
    {
        self.arg_size
    }

    /// Build a summary from an already deduplicated fact list.
    pub(crate) fn from_parts(arg_size: usize, aliases: Vec<AliasPair>) -> (r: FnAliasPairs)
        requires
            seq_no_dup(keys_of(aliases@)),
        ensures
            r.spec_arg_size() == arg_size,
            r.keys() == keys_of(aliases@),
            r.no_duplicates(),
    {
        FnAliasPairs { arg_size, aliases }
    }

    /// Number of stored facts.
    pub fn len(&self) -> (r: usize)
        ensures
            r == self.keys().len(),
    {
        self.aliases.len()
    }
}

/// Fold `insert_unique` over `from`, starting at `t`, into `acc`.
pub open spec fn insert_all(
    acc: Seq<(usize, usize, Seq<usize>, Seq<usize>)>,
    from: Seq<(usize, usize, Seq<usize>, Seq<usize>)>,
    t: int,
) -> Seq<(usize, usize, Seq<usize>, Seq<usize>)>
    decreases from.len() - t,
{
    if t < 0 || t >= from.len() {
        acc
    } else {
        insert_all(insert_unique(acc, from[t]), from, t + 1)
    }
}

/// Join two function summaries: the (deduplicated) union of their facts,
/// first those of `summary1`, then those of `summary2`.
pub fn join_fn_summaries(summary1: &FnAliasPairs, summary2: &FnAliasPairs) -> (r: FnAliasPairs)
    requires
        summary1.no_duplicates(),
        summary2.no_duplicates(),
    ensures
        r.spec_arg_size() == summary1.spec_arg_size(),
        r.keys() == insert_all(insert_all(Seq::empty(), summary1.keys(), 0), summary2.keys(), 0),
        r.no_duplicates(),
{
    let mut result = FnAliasPairs::new(summary1.arg_size());
    let s1 = summary1.aliases();
    let mut i: usize = 0;
    while i < s1.len()
        invariant
            s1@.map_values(|p: AliasPair| p.key()) == summary1.keys(),
            i <= s1@.len(),
            result.no_duplicates(),
            result.spec_arg_size() == summary1.spec_arg_size(),
            insert_all(result.keys(), summary1.keys(), i as int) == insert_all(
                Seq::empty(),
                summary1.keys(),
                0,
            ),
        decreases s1@.len() - i,
    {
        result.add_alias(s1[i].clone());
        i = i + 1;
    }
    let s2 = summary2.aliases();
    let ghost base = insert_all(Seq::empty(), summary1.keys(), 0);
    let mut j: usize = 0;
    while j < s2.len()
        invariant
            s2@.map_values(|p: AliasPair| p.key()) == summary2.keys(),
            j <= s2@.len(),
            result.no_duplicates(),
            result.spec_arg_size() == summary1.spec_arg_size(),
            insert_all(result.keys(), summary2.keys(), j as int) == insert_all(
                base,
                summary2.keys(),
                0,
            ),
        decreases s2@.len() - j,
    {
        result.add_alias(s2[j].clone());
        j = j + 1;
    }
    result
}

} // verus!
