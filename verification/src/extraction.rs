//! Function summary extraction.
//!
//! At a return point, the alias state is projected down to a compact
//! relation between the arguments and the return value: seed the relevant
//! places (those rooted at an argument or the return value), expand by a
//! bounded transitive closure over the alias pairs, derive candidate facts
//! directly and through bridge temporaries, and filter the candidates down
//! to a minimal, subsumption-free set.  The result is a function of the
//! alias relation, the place table and the argument count alone, so
//! re-running extraction on the same state yields the identical fact set.

use vstd::prelude::*;

use crate::alias_domain::AliasDomain;
use crate::alias_summary::{
    AliasPair,
    FnAliasPairs,
    insert_unique,
    keys_of,
    pairs_equal,
    seq_no_dup,
    usize_vecs_equal,
};
use crate::places::{
    PlaceId,
    extract_field_path,
    is_field_prefix,
    is_strict_prefix,
    spec_is_prefix,
    spec_is_strict_prefix,
};

verus! {

/// Iteration cap for the transitive-closure expansion: a safety valve
/// against pathological inputs, at the price of a coarser (still sound)
/// result when it triggers.
pub const MAX_CLOSURE_ITERATIONS: usize = 10;

/// Initially relevant: places whose root is an argument or the return
/// value (root index at most `argc`).
pub open spec fn spec_init_relevant(places: Seq<PlaceId>, argc: int) -> Seq<bool> {
    Seq::new(places.len(), |i: int| places[i].spec_root_local() <= argc)
}

/// One pass over the alias pairs from index `t` on: both sides of a pair
/// become relevant as soon as one is.
pub open spec fn spec_relevant_pass(pairs: Seq<(usize, usize)>, rel: Seq<bool>, t: int) -> Seq<bool>
    decreases pairs.len() - t,
{
    if t < 0 || t >= pairs.len() {
        rel
    } else {
        let i = pairs[t].0 as int;
        let j = pairs[t].1 as int;
        let r2 = if 0 <= i < rel.len() && 0 <= j < rel.len() && (rel[i] || rel[j]) {
            rel.update(i, true).update(j, true)
        } else {
            rel
        };
        spec_relevant_pass(pairs, r2, t + 1)
    }
}

/// `iters` passes of the relevance expansion.
pub open spec fn spec_relevant_iter(pairs: Seq<(usize, usize)>, rel: Seq<bool>, iters: nat) -> Seq<
    bool,
>
    decreases iters,
{
    if iters == 0 {
        rel
    } else {
        spec_relevant_iter(pairs, spec_relevant_pass(pairs, rel, 0), (iters - 1) as nat)
    }
}

/// Are both sides of pair `t` relevant?
pub open spec fn spec_pair_relevant(pairs: Seq<(usize, usize)>, rel: Seq<bool>, t: int) -> bool {
    rel[pairs[t].0 as int] && rel[pairs[t].1 as int]
}

/// Compress a field path to its first level only.
pub open spec fn spec_trunc_first(s: Seq<usize>) -> Seq<usize> {
    if s.len() > 1 {
        seq![s[0]]
    } else {
        s
    }
}

/// The candidate fact derived from two alias pairs `(pi, pj)` and
/// `(pk, pm)` that share a bridge root: when `pj` and `pm` are
/// parent/child paths of the same bridge variable and both far sides root
/// at an argument or the return value, relate the far sides, compressing
/// the first side's path to one level.
pub open spec fn spec_bridge_key(pi: PlaceId, pj: PlaceId, pk: PlaceId, pm: PlaceId, argc: int) -> Option<
    (usize, usize, Seq<usize>, Seq<usize>),
> {
    if pj.spec_root_local() != pm.spec_root_local() {
        Option::None
    } else if !(spec_is_prefix(pj.spec_field_path(), pm.spec_field_path()) || spec_is_prefix(
        pm.spec_field_path(),
        pj.spec_field_path(),
    )) {
        Option::None
    } else if pi.spec_root_local() > argc || pk.spec_root_local() > argc {
        Option::None
    } else {
        Option::Some(
            (
                pi.spec_root_local(),
                pk.spec_root_local(),
                spec_trunc_first(pi.spec_field_path()),
                pk.spec_field_path(),
            ),
        )
    }
}

/// Bridge-derived candidates of row `a`, columns `b` on, folded into `acc`.
pub open spec fn spec_bridge_inner(
    pairs: Seq<(usize, usize)>,
    places: Seq<PlaceId>,
    rel: Seq<bool>,
    argc: int,
    a: int,
    b: int,
    acc: Seq<(usize, usize, Seq<usize>, Seq<usize>)>,
) -> Seq<(usize, usize, Seq<usize>, Seq<usize>)>
    decreases pairs.len() - b,
{
    if b < 0 || b >= pairs.len() {
        acc
    } else {
        let acc2 = if spec_pair_relevant(pairs, rel, b) {
            match spec_bridge_key(
                places[pairs[a].0 as int],
                places[pairs[a].1 as int],
                places[pairs[b].0 as int],
                places[pairs[b].1 as int],
                argc,
            ) {
                Option::Some(k) => insert_unique(acc, k),
                Option::None => acc,
            }
        } else {
            acc
        };
        spec_bridge_inner(pairs, places, rel, argc, a, b + 1, acc2)
    }
}

/// Bridge-derived candidates of all rows from `a` on.
pub open spec fn spec_bridge_outer(
    pairs: Seq<(usize, usize)>,
    places: Seq<PlaceId>,
    rel: Seq<bool>,
    argc: int,
    a: int,
    acc: Seq<(usize, usize, Seq<usize>, Seq<usize>)>,
) -> Seq<(usize, usize, Seq<usize>, Seq<usize>)>
    decreases pairs.len() - a,
{
    if a < 0 || a >= pairs.len() {
        acc
    } else {
        let acc2 = if spec_pair_relevant(pairs, rel, a) {
            spec_bridge_inner(pairs, places, rel, argc, a, 0, acc)
        } else {
            acc
        };
        spec_bridge_outer(pairs, places, rel, argc, a + 1, acc2)
    }
}

/// Direct candidates: alias pairs whose both sides already root at an
/// argument or the return value, folded into `acc` from index `t` on.
pub open spec fn spec_direct(
    pairs: Seq<(usize, usize)>,
    places: Seq<PlaceId>,
    rel: Seq<bool>,
    argc: int,
    t: int,
    acc: Seq<(usize, usize, Seq<usize>, Seq<usize>)>,
) -> Seq<(usize, usize, Seq<usize>, Seq<usize>)>
    decreases pairs.len() - t,
{
    if t < 0 || t >= pairs.len() {
        acc
    } else {
        let pi = places[pairs[t].0 as int];
        let pj = places[pairs[t].1 as int];
        let acc2 = if spec_pair_relevant(pairs, rel, t) && pi.spec_root_local() <= argc
            && pj.spec_root_local() <= argc {
            insert_unique(
                acc,
                (
                    pi.spec_root_local(),
                    pj.spec_root_local(),
                    pi.spec_field_path(),
                    pj.spec_field_path(),
                ),
            )
        } else {
            acc
        };
        spec_direct(pairs, places, rel, argc, t + 1, acc2)
    }
}

/// A fact relating a place to itself.
pub open spec fn spec_self_alias(k: (usize, usize, Seq<usize>, Seq<usize>)) -> bool {
    k.0 == k.1
}

/// `a` subsumes `b`: same root pair, `a`'s field paths are prefixes of
/// (or equal to) `b`'s, and at least one side is strictly shorter.
pub open spec fn spec_subsumes(
    a: (usize, usize, Seq<usize>, Seq<usize>),
    b: (usize, usize, Seq<usize>, Seq<usize>),
) -> bool {
    &&& a.0 == b.0
    &&& a.1 == b.1
    &&& (spec_is_strict_prefix(a.2, b.2) || a.2 == b.2)
    &&& (spec_is_strict_prefix(a.3, b.3) || a.3 == b.3)
    &&& (spec_is_strict_prefix(a.2, b.2) || spec_is_strict_prefix(a.3, b.3))
}

/// A candidate is kept when it is not a self-alias and no candidate
/// subsumes it.
pub open spec fn spec_keep(
    k: (usize, usize, Seq<usize>, Seq<usize>),
    all: Seq<(usize, usize, Seq<usize>, Seq<usize>)>,
) -> bool {
    !spec_self_alias(k) && !(exists|t: int| 0 <= t < all.len() && spec_subsumes(#[trigger] all[t], k))
}

/// The filtered form of a candidate set: kept facts, in order.
pub open spec fn spec_filtered(all: Seq<(usize, usize, Seq<usize>, Seq<usize>)>) -> Seq<
    (usize, usize, Seq<usize>, Seq<usize>),
> {
    all.filter(|k: (usize, usize, Seq<usize>, Seq<usize>)| spec_keep(k, all))
}

/// The full extraction pipeline over the alias relation's pairs, the
/// place table, and the argument count.
pub open spec fn spec_extract(pairs: Seq<(usize, usize)>, places: Seq<PlaceId>, argc: int) -> Seq<
    (usize, usize, Seq<usize>, Seq<usize>),
> {
    let rel = spec_relevant_iter(pairs, spec_init_relevant(places, argc), 10);
    let cands = spec_direct(
        pairs,
        places,
        rel,
        argc,
        0,
        spec_bridge_outer(pairs, places, rel, argc, 0, Seq::empty()),
    );
    spec_filtered(cands)
}

proof fn lemma_filter_single<A>(k: A, pred: spec_fn(A) -> bool)
    ensures
        pred(k) ==> seq![k].filter(pred) == seq![k],
        !pred(k) ==> seq![k].filter(pred) == Seq::<A>::empty(),
{
    reveal(Seq::filter);
    let s = seq![k];
    assert(s.drop_last() =~= Seq::<A>::empty());
    assert(s.drop_last().filter(pred) =~= Seq::<A>::empty());
    assert(s.last() == k);
    if pred(k) {
        assert(s.filter(pred) =~= Seq::<A>::empty().push(k));
        assert(Seq::<A>::empty().push(k) =~= s);
    }
}

/// All keys in `s` relate argument or return roots only.
pub open spec fn spec_keys_rooted(s: Seq<(usize, usize, Seq<usize>, Seq<usize>)>, argc: int) -> bool {
    forall|t: int| 0 <= t < s.len() ==> (#[trigger] s[t]).0 <= argc && s[t].1 <= argc
}

proof fn lemma_insert_unique_rooted(
    acc: Seq<(usize, usize, Seq<usize>, Seq<usize>)>,
    k: (usize, usize, Seq<usize>, Seq<usize>),
    argc: int,
)
    requires
        spec_keys_rooted(acc, argc),
        k.0 <= argc,
        k.1 <= argc,
    ensures
        spec_keys_rooted(insert_unique(acc, k), argc),
{
}

proof fn lemma_bridge_inner_rooted(
    pairs: Seq<(usize, usize)>,
    places: Seq<PlaceId>,
    rel: Seq<bool>,
    argc: int,
    a: int,
    b: int,
    acc: Seq<(usize, usize, Seq<usize>, Seq<usize>)>,
)
    requires
        spec_keys_rooted(acc, argc),
    ensures
        spec_keys_rooted(spec_bridge_inner(pairs, places, rel, argc, a, b, acc), argc),
    decreases pairs.len() - b,
{
    if 0 <= b < pairs.len() {
        let acc2 = if spec_pair_relevant(pairs, rel, b) {
            match spec_bridge_key(
                places[pairs[a].0 as int],
                places[pairs[a].1 as int],
                places[pairs[b].0 as int],
                places[pairs[b].1 as int],
                argc,
            ) {
                Option::Some(k) => insert_unique(acc, k),
                Option::None => acc,
            }
        } else {
            acc
        };
        assert(spec_keys_rooted(acc2, argc)) by {
            match spec_bridge_key(
                places[pairs[a].0 as int],
                places[pairs[a].1 as int],
                places[pairs[b].0 as int],
                places[pairs[b].1 as int],
                argc,
            ) {
                Option::Some(k) => {
                    lemma_insert_unique_rooted(acc, k, argc);
                },
                Option::None => {},
            }
        }
        lemma_bridge_inner_rooted(pairs, places, rel, argc, a, b + 1, acc2);
    }
}

proof fn lemma_bridge_outer_rooted(
    pairs: Seq<(usize, usize)>,
    places: Seq<PlaceId>,
    rel: Seq<bool>,
    argc: int,
    a: int,
    acc: Seq<(usize, usize, Seq<usize>, Seq<usize>)>,
)
    requires
        spec_keys_rooted(acc, argc),
    ensures
        spec_keys_rooted(spec_bridge_outer(pairs, places, rel, argc, a, acc), argc),
    decreases pairs.len() - a,
{
    if 0 <= a < pairs.len() {
        let acc2 = if spec_pair_relevant(pairs, rel, a) {
            spec_bridge_inner(pairs, places, rel, argc, a, 0, acc)
        } else {
            acc
        };
        assert(spec_keys_rooted(acc2, argc)) by {
            if spec_pair_relevant(pairs, rel, a) {
                lemma_bridge_inner_rooted(pairs, places, rel, argc, a, 0, acc);
            }
        }
        lemma_bridge_outer_rooted(pairs, places, rel, argc, a + 1, acc2);
    }
}

proof fn lemma_direct_rooted(
    pairs: Seq<(usize, usize)>,
    places: Seq<PlaceId>,
    rel: Seq<bool>,
    argc: int,
    t: int,
    acc: Seq<(usize, usize, Seq<usize>, Seq<usize>)>,
)
    requires
        spec_keys_rooted(acc, argc),
    ensures
        spec_keys_rooted(spec_direct(pairs, places, rel, argc, t, acc), argc),
    decreases pairs.len() - t,
{
    if 0 <= t < pairs.len() {
        let pi = places[pairs[t].0 as int];
        let pj = places[pairs[t].1 as int];
        let acc2 = if spec_pair_relevant(pairs, rel, t) && pi.spec_root_local() <= argc
            && pj.spec_root_local() <= argc {
            insert_unique(
                acc,
                (
                    pi.spec_root_local(),
                    pj.spec_root_local(),
                    pi.spec_field_path(),
                    pj.spec_field_path(),
                ),
            )
        } else {
            acc
        };
        assert(spec_keys_rooted(acc2, argc)) by {
            if spec_pair_relevant(pairs, rel, t) && pi.spec_root_local() <= argc
                && pj.spec_root_local() <= argc {
                lemma_insert_unique_rooted(
                    acc,
                    (
                        pi.spec_root_local(),
                        pj.spec_root_local(),
                        pi.spec_field_path(),
                        pj.spec_field_path(),
                    ),
                    argc,
                );
            }
        }
        lemma_direct_rooted(pairs, places, rel, argc, t + 1, acc2);
    }
}

/// Everything a filtered sequence keeps was already there and satisfies
/// the predicate; a filtered unique sequence stays unique.
proof fn lemma_filter_member<A>(s: Seq<A>, pred: spec_fn(A) -> bool, x: A)
    ensures
        s.filter(pred).contains(x) <==> (s.contains(x) && pred(x)),
    decreases s.len(),
{
    reveal(Seq::filter);
    if s.len() > 0 {
        lemma_filter_member(s.drop_last(), pred, x);
        let sub = s.drop_last().filter(pred);
        let out = s.filter(pred);
        if out.contains(x) {
            let t = choose|t: int| 0 <= t < out.len() && out[t] == x;
            if pred(s.last()) {
                assert(out == sub.push(s.last()));
                if t < sub.len() {
                    assert(sub[t] == x);
                    assert(sub.contains(x));
                } else {
                    assert(x == s.last());
                }
            } else {
                assert(out == sub);
                assert(sub.contains(x));
            }
            if s.drop_last().contains(x) {
                let u = choose|u: int| 0 <= u < s.drop_last().len() && s.drop_last()[u] == x;
                assert(s[u] == x);
            }
            assert(s.contains(x));
        }
        if s.contains(x) && pred(x) {
            let t = choose|t: int| 0 <= t < s.len() && s[t] == x;
            if t < s.len() - 1 {
                assert(s.drop_last()[t] == x);
                assert(s.drop_last().contains(x));
                let u = choose|u: int| 0 <= u < sub.len() && sub[u] == x;
                assert(out[u] == x);
            } else {
                assert(x == s.last());
                assert(out.last() == x);
            }
            assert(out.contains(x));
        }
    } else {
        assert(s.filter(pred).len() == 0);
        if s.contains(x) {
            let t = choose|t: int| 0 <= t < s.len() && s[t] == x;
        }
    }
}

proof fn lemma_filter_unique(
    s: Seq<(usize, usize, Seq<usize>, Seq<usize>)>,
    pred: spec_fn((usize, usize, Seq<usize>, Seq<usize>)) -> bool,
)
    requires
        seq_no_dup(s),
    ensures
        seq_no_dup(s.filter(pred)),
    decreases s.len(),
{
    reveal(Seq::filter);
    if s.len() > 0 {
        assert forall|i: int, j: int| 0 <= i < j < s.drop_last().len() implies s.drop_last()[i]
            != s.drop_last()[j] by {
            assert(s[i] != s[j]);
        }
        lemma_filter_unique(s.drop_last(), pred);
        let sub = s.drop_last().filter(pred);
        if pred(s.last()) {
            if sub.contains(s.last()) {
                lemma_filter_member(s.drop_last(), pred, s.last());
                let t = choose|t: int|
                    0 <= t < s.drop_last().len() && #[trigger] s.drop_last()[t] == s.last();
                assert(s[t] == s[s.len() - 1]);
                assert(false);
            }
            assert forall|i: int, j: int|
                0 <= i < j < s.filter(pred).len() implies s.filter(pred)[i] != s.filter(
                pred,
            )[j] by {
                if j < sub.len() {
                    assert(sub[i] != sub[j]);
                } else {
                    assert(s.filter(pred)[j] == s.last());
                    assert(s.filter(pred)[i] == sub[i]);
                    assert(sub.contains(sub[i]));
                }
            }
        }
    }
}

/// Append a fact unless an equal one is already present.
fn push_unique(cands: &mut Vec<AliasPair>, p: AliasPair)
    ensures
        keys_of(final(cands)@) == insert_unique(keys_of(old(cands)@), p.key()),
        seq_no_dup(keys_of(old(cands)@)) ==> seq_no_dup(keys_of(final(cands)@)),
{
    let ghost orig = keys_of(cands@);
    let mut i: usize = 0;
    let n = cands.len();
    while i < n
        invariant
            cands@ == old(cands)@,
            orig == keys_of(cands@),
            n == cands@.len(),
            i <= n,
            forall|t: int| 0 <= t < i ==> keys_of(cands@)[t] != p.key(),
        decreases n - i,
    {
        if pairs_equal(&cands[i], &p) {
            proof {
                assert(keys_of(cands@)[i as int] == p.key());
                assert(keys_of(cands@).contains(p.key()));
            }
            return ;
        }
        i = i + 1;
    }
    proof {
        if keys_of(cands@).contains(p.key()) {
            let t = choose|t: int|
                0 <= t < keys_of(cands@).len() && #[trigger] keys_of(cands@)[t] == p.key();
        }
        assert(!keys_of(cands@).contains(p.key()));
    }
    cands.push(p);
    proof {
        assert(keys_of(cands@) =~= orig.push(p.key()));
        if seq_no_dup(orig) {
            assert forall|a: int, b: int|
                0 <= a < b < keys_of(cands@).len() implies keys_of(cands@)[a] != keys_of(
                cands@,
            )[b] by {
                if b == keys_of(cands@).len() - 1 {
                    assert(orig.contains(orig[a]));
                }
            }
        }
    }
}

/// Compute the relevant places: seed with argument/return roots, then run
/// the bounded transitive closure over the alias pairs.
fn compute_relevant(pairs: &Vec<(usize, usize)>, places: &Vec<PlaceId>, arg_count: usize) -> (rel:
    Vec<bool>)
    requires
        forall|t: int|
            0 <= t < pairs@.len() ==> (#[trigger] pairs@[t]).0 < places@.len() && pairs@[t].1
                < places@.len(),
    ensures
        rel@.len() == places@.len(),
        rel@ == spec_relevant_iter(
            pairs@,
            spec_init_relevant(places@, arg_count as int),
            MAX_CLOSURE_ITERATIONS as nat,
        ),
{
    let mut rel: Vec<bool> = Vec::new();
    let mut i: usize = 0;
    while i < places.len()
        invariant
            i <= places@.len(),
            rel@.len() == i,
            forall|t: int|
                0 <= t < i ==> rel@[t] == (places@[t].spec_root_local() <= arg_count as int),
        decreases places.len() - i,
    {
        let root = places[i].root_local();
        rel.push(root <= arg_count);
        i = i + 1;
    }
    proof {
        assert(rel@ =~= spec_init_relevant(places@, arg_count as int));
    }
    let ghost init = rel@;
    let mut iter: usize = 0;
    while iter < MAX_CLOSURE_ITERATIONS
        invariant
            iter <= MAX_CLOSURE_ITERATIONS,
            rel@.len() == places@.len(),
            forall|t: int|
                0 <= t < pairs@.len() ==> (#[trigger] pairs@[t]).0 < places@.len() && pairs@[t].1
                    < places@.len(),
            spec_relevant_iter(pairs@, rel@, (MAX_CLOSURE_ITERATIONS - iter) as nat)
                == spec_relevant_iter(pairs@, init, MAX_CLOSURE_ITERATIONS as nat),
        decreases MAX_CLOSURE_ITERATIONS - iter,
    {
        let ghost pass_start = rel@;
        let mut t: usize = 0;
        while t < pairs.len()
            invariant
                t <= pairs@.len(),
                rel@.len() == places@.len(),
                forall|u: int|
                    0 <= u < pairs@.len() ==> (#[trigger] pairs@[u]).0 < places@.len()
                        && pairs@[u].1 < places@.len(),
                spec_relevant_pass(pairs@, rel@, t as int) == spec_relevant_pass(
                    pairs@,
                    pass_start,
                    0,
                ),
            decreases pairs.len() - t,
        {
            let (a, b) = pairs[t];
            let ghost before = rel@;
            let ra = rel[a];
            let rb = rel[b];
            if ra || rb {
                rel.set(a, true);
                rel.set(b, true);
                proof {
                    assert(rel@ =~= before.update(a as int, true).update(b as int, true));
                }
            }
            t = t + 1;
        }
        iter = iter + 1;
    }
    rel
}

/// Collect the candidate facts: bridge-derived ones first, then the
/// direct argument/return pairs.
fn collect_candidates(
    pairs: &Vec<(usize, usize)>,
    places: &Vec<PlaceId>,
    rel: &Vec<bool>,
    arg_count: usize,
) -> (cands: Vec<AliasPair>)
    requires
        rel@.len() == places@.len(),
        forall|t: int|
            0 <= t < pairs@.len() ==> (#[trigger] pairs@[t]).0 < places@.len() && pairs@[t].1
                < places@.len(),
    ensures
        keys_of(cands@) == spec_direct(
            pairs@,
            places@,
            rel@,
            arg_count as int,
            0,
            spec_bridge_outer(pairs@, places@, rel@, arg_count as int, 0, Seq::empty()),
        ),
        seq_no_dup(keys_of(cands@)),
{
    let mut cands: Vec<AliasPair> = Vec::new();
    proof {
        assert(keys_of(cands@) =~= Seq::<(usize, usize, Seq<usize>, Seq<usize>)>::empty());
    }
    let ghost argc = arg_count as int;
    let mut a: usize = 0;
    while a < pairs.len()
        invariant
            argc == arg_count as int,
            a <= pairs@.len(),
            rel@.len() == places@.len(),
            forall|t: int|
                0 <= t < pairs@.len() ==> (#[trigger] pairs@[t]).0 < places@.len() && pairs@[t].1
                    < places@.len(),
            seq_no_dup(keys_of(cands@)),
            spec_bridge_outer(pairs@, places@, rel@, argc, a as int, keys_of(cands@))
                == spec_bridge_outer(pairs@, places@, rel@, argc, 0, Seq::empty()),
        decreases pairs.len() - a,
    {
        let (ia, ja) = pairs[a];
        if rel[ia] && rel[ja] {
            let ghost inner_start = keys_of(cands@);
            let mut b: usize = 0;
            while b < pairs.len()
                invariant
                    argc == arg_count as int,
                    b <= pairs@.len(),
                    a < pairs@.len(),
                    (ia, ja) == pairs@[a as int],
                    spec_pair_relevant(pairs@, rel@, a as int),
                    rel@.len() == places@.len(),
                    forall|t: int|
                        0 <= t < pairs@.len() ==> (#[trigger] pairs@[t]).0 < places@.len()
                            && pairs@[t].1 < places@.len(),
                    seq_no_dup(keys_of(cands@)),
                    spec_bridge_inner(pairs@, places@, rel@, argc, a as int, b as int, keys_of(
                        cands@,
                    )) == spec_bridge_inner(pairs@, places@, rel@, argc, a as int, 0, inner_start),
                decreases pairs.len() - b,
            {
                let (ib, jb) = pairs[b];
                let ghost before = keys_of(cands@);
                if rel[ib] && rel[jb] {
                    let place_i = &places[ia];
                    let place_j = &places[ja];
                    let place_k = &places[ib];
                    let place_m = &places[jb];
                    let j_fields = extract_field_path(place_j);
                    let m_fields = extract_field_path(place_m);
                    if place_j.root_local() == place_m.root_local() && (is_field_prefix(
                        j_fields.as_slice(),
                        m_fields.as_slice(),
                    ) || is_field_prefix(m_fields.as_slice(), j_fields.as_slice())) {
                        let root_i = place_i.root_local();
                        let root_k = place_k.root_local();
                        if root_i <= arg_count && root_k <= arg_count {
                            let mut fields_i = extract_field_path(place_i);
                            if fields_i.len() > 1 {
                                fields_i.truncate(1);
                                proof {
                                    assert(fields_i@ =~= spec_trunc_first(
                                        place_i.spec_field_path(),
                                    ));
                                }
                            }
                            let fields_k = extract_field_path(place_k);
                            let alias = AliasPair {
                                left_local: root_i,
                                right_local: root_k,
                                lhs_fields: fields_i,
                                rhs_fields: fields_k,
                            };
                            proof {
                                assert(places@[ja as int].spec_root_local() == places@[jb
                                    as int].spec_root_local());
                                assert(spec_is_prefix(
                                    places@[ja as int].spec_field_path(),
                                    places@[jb as int].spec_field_path(),
                                ) || spec_is_prefix(
                                    places@[jb as int].spec_field_path(),
                                    places@[ja as int].spec_field_path(),
                                ));
                                assert(places@[ia as int].spec_root_local() <= argc);
                                assert(places@[ib as int].spec_root_local() <= argc);
                                assert(alias.key() == (
                                    places@[ia as int].spec_root_local(),
                                    places@[ib as int].spec_root_local(),
                                    spec_trunc_first(places@[ia as int].spec_field_path()),
                                    places@[ib as int].spec_field_path(),
                                ));
                                assert(spec_bridge_key(
                                    places@[ia as int],
                                    places@[ja as int],
                                    places@[ib as int],
                                    places@[jb as int],
                                    argc,
                                ) == Option::Some(alias.key()));
                            }
                            push_unique(&mut cands, alias);
                        }
                    }
                }
                b = b + 1;
            }
        }
        a = a + 1;
    }
    // Direct candidates.
    let ghost direct_start = keys_of(cands@);
    let mut t: usize = 0;
    while t < pairs.len()
        invariant
            argc == arg_count as int,
            t <= pairs@.len(),
            rel@.len() == places@.len(),
            forall|u: int|
                0 <= u < pairs@.len() ==> (#[trigger] pairs@[u]).0 < places@.len() && pairs@[u].1
                    < places@.len(),
            seq_no_dup(keys_of(cands@)),
            spec_direct(pairs@, places@, rel@, argc, t as int, keys_of(cands@)) == spec_direct(
                pairs@,
                places@,
                rel@,
                argc,
                0,
                direct_start,
            ),
        decreases pairs.len() - t,
    {
        let (i, j) = pairs[t];
        if rel[i] && rel[j] {
            let place_i = &places[i];
            let place_j = &places[j];
            let root_i = place_i.root_local();
            let root_j = place_j.root_local();
            if root_i <= arg_count && root_j <= arg_count {
                let fields_i = extract_field_path(place_i);
                let fields_j = extract_field_path(place_j);
                let alias = AliasPair {
                    left_local: root_i,
                    right_local: root_j,
                    lhs_fields: fields_i,
                    rhs_fields: fields_j,
                };
                push_unique(&mut cands, alias);
            }
        }
        t = t + 1;
    }
    cands
}

/// Does `a` strictly subsume `b` (same roots, prefix-or-equal paths, at
/// least one side strictly shorter)?
fn subsumes(a: &AliasPair, b: &AliasPair) -> (r: bool)
    ensures
        r == spec_subsumes(a.key(), b.key()),
{
    if a.left_local != b.left_local || a.right_local != b.right_local {
        return false;
    }
    let lhs_strict = is_strict_prefix(a.lhs_fields.as_slice(), b.lhs_fields.as_slice());
    let rhs_strict = is_strict_prefix(a.rhs_fields.as_slice(), b.rhs_fields.as_slice());
    let lhs_sub = lhs_strict || usize_vecs_equal(&a.lhs_fields, &b.lhs_fields);
    let rhs_sub = rhs_strict || usize_vecs_equal(&a.rhs_fields, &b.rhs_fields);
    lhs_sub && rhs_sub && (lhs_strict || rhs_strict)
}

/// Filter redundant facts out of a candidate set: self-aliases and facts
/// subsumed by a more general fact over the same root pair.  What remains
/// is exactly the kept facts, in their original order.
pub fn filter_redundant_aliases(aliases: &Vec<AliasPair>) -> (r: Vec<AliasPair>)
    ensures
        keys_of(r@) == spec_filtered(keys_of(aliases@)),
{
    let ghost all = keys_of(aliases@);
    let ghost pred = |k: (usize, usize, Seq<usize>, Seq<usize>)| spec_keep(k, all);
    let mut r: Vec<AliasPair> = Vec::new();
    proof {
        assert(all.subrange(0, 0) =~= Seq::<(usize, usize, Seq<usize>, Seq<usize>)>::empty());
        assert(keys_of(r@) =~= Seq::<(usize, usize, Seq<usize>, Seq<usize>)>::empty());
        assert(Seq::<(usize, usize, Seq<usize>, Seq<usize>)>::empty().filter(pred)
            =~= Seq::<(usize, usize, Seq<usize>, Seq<usize>)>::empty()) by {
            reveal(Seq::filter);
        }
    }
    let mut i: usize = 0;
    while i < aliases.len()
        invariant
            i <= aliases@.len(),
            all == keys_of(aliases@),
            pred == (|k: (usize, usize, Seq<usize>, Seq<usize>)| spec_keep(k, all)),
            keys_of(r@) == all.subrange(0, i as int).filter(pred),
        decreases aliases.len() - i,
    {
        let cand = &aliases[i];
        let mut keep = cand.left_local != cand.right_local;
        if keep {
            let mut j: usize = 0;
            while j < aliases.len()
                invariant
                    i < aliases@.len(),
                    j <= aliases@.len(),
                    all == keys_of(aliases@),
                    keep == !(exists|t: int|
                        0 <= t < j && spec_subsumes(#[trigger] all[t], all[i as int])),
                decreases aliases.len() - j,
            {
                if subsumes(&aliases[j], &aliases[i]) {
                    keep = false;
                    proof {
                        assert(spec_subsumes(all[j as int], all[i as int]));
                    }
                }
                j = j + 1;
            }
        }
        let ghost before = keys_of(r@);
        if keep {
            r.push(cand.clone());
        }
        proof {
            assert(keep == spec_keep(all[i as int], all));
            assert(all.subrange(0, i + 1) =~= all.subrange(0, i as int) + seq![all[i as int]]);
            Seq::filter_distributes_over_add(
                all.subrange(0, i as int),
                seq![all[i as int]],
                pred,
            );
            lemma_filter_single(all[i as int], pred);
            if keep {
                assert(keys_of(r@) =~= before.push(all[i as int]));
                assert(keys_of(r@) =~= all.subrange(0, i as int).filter(pred) + seq![
                    all[i as int],
                ]);
            } else {
                assert(keys_of(r@) =~= all.subrange(0, i as int).filter(pred) + Seq::<
                    (usize, usize, Seq<usize>, Seq<usize>),
                >::empty());
            }
            assert(keys_of(r@) =~= all.subrange(0, i + 1).filter(pred));
        }
        i = i + 1;
    }
    proof {
        assert(all.subrange(0, aliases@.len() as int) =~= all);
    }
    r
}

/// Extract a function summary from the alias state at a return point.
///
/// The result is pinned to `spec_extract` over the state's alias pairs,
/// so extraction is a function of the state alone: re-running it on the
/// identical state yields the identical fact sequence.  The retained set
/// is minimal: no self-aliases, and no fact subsumed by another retained
/// fact (over the same root pair, with prefix field paths).
pub fn extract_summary(state: &AliasDomain, places: &Vec<PlaceId>, arg_count: usize) -> (summary:
    FnAliasPairs)
    requires
        state.wf(),
        places@.len() == state.n(),
    ensures
        summary.spec_arg_size() == arg_count,
        summary.keys() == spec_extract(state.spec_alias_pairs(), places@, arg_count as int),
        summary.no_duplicates(),
        forall|x: (usize, usize, Seq<usize>, Seq<usize>), y: (usize, usize, Seq<usize>, Seq<usize>)|
            summary.keys().contains(x) && summary.keys().contains(y) ==> !spec_subsumes(x, y),
        forall|k: (usize, usize, Seq<usize>, Seq<usize>)|
            summary.keys().contains(k) ==> !spec_self_alias(k),
        // Every fact roots at an argument or the return value.
        forall|t: int|
            0 <= t < summary.keys().len() ==> (#[trigger] summary.keys()[t]).0 <= arg_count
                && summary.keys()[t].1 <= arg_count,
{
    let pairs = state.get_all_alias_pairs();
    proof {
        state.lemma_n_bound();
        assert forall|t: int| 0 <= t < pairs@.len() implies (#[trigger] pairs@[t]).0
            < places@.len() && pairs@[t].1 < places@.len() by {
            assert(pairs@.contains(pairs@[t]));
            state.lemma_alias_pairs_member(pairs@[t]);
        }
    }
    let rel = compute_relevant(&pairs, places, arg_count);
    let cands = collect_candidates(&pairs, places, &rel, arg_count);
    let filtered = filter_redundant_aliases(&cands);
    proof {
        let allk = keys_of(cands@);
        let predk = |k: (usize, usize, Seq<usize>, Seq<usize>)| spec_keep(k, allk);
        lemma_filter_unique(allk, predk);
        assert forall|x: (usize, usize, Seq<usize>, Seq<usize>), y: (
            usize,
            usize,
            Seq<usize>,
            Seq<usize>,
        )| keys_of(filtered@).contains(x) && keys_of(filtered@).contains(y) implies !spec_subsumes(
            x,
            y,
        ) by {
            lemma_filter_member(allk, predk, x);
            lemma_filter_member(allk, predk, y);
            let t = choose|t: int| 0 <= t < allk.len() && #[trigger] allk[t] == x;
        }
        assert forall|k: (usize, usize, Seq<usize>, Seq<usize>)| keys_of(filtered@).contains(
            k,
        ) implies !spec_self_alias(k) by {
            lemma_filter_member(allk, predk, k);
        }
    }
    proof {
        let allk = keys_of(cands@);
        assert(spec_keys_rooted(Seq::empty(), arg_count as int));
        lemma_bridge_outer_rooted(
            pairs@,
            places@,
            rel@,
            arg_count as int,
            0,
            Seq::empty(),
        );
        lemma_direct_rooted(
            pairs@,
            places@,
            rel@,
            arg_count as int,
            0,
            spec_bridge_outer(pairs@, places@, rel@, arg_count as int, 0, Seq::empty()),
        );
        assert forall|t: int| 0 <= t < keys_of(filtered@).len() implies (#[trigger] keys_of(
            filtered@,
        )[t]).0 <= arg_count && keys_of(filtered@)[t].1 <= arg_count by {
            let predk = |k: (usize, usize, Seq<usize>, Seq<usize>)| spec_keep(k, allk);
            assert(keys_of(filtered@).contains(keys_of(filtered@)[t]));
            lemma_filter_member(allk, predk, keys_of(filtered@)[t]);
            let u = choose|u: int|
                0 <= u < allk.len() && #[trigger] allk[u] == keys_of(filtered@)[t];
        }
    }
    let summary = FnAliasPairs::from_parts(arg_count, filtered);
    summary
}

} // verus!
