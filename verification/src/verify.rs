//! Exact equivalence checking for symbolic computations and rewrite states.

use crate::canon::{
    canon_expr, canonical_choices, drop_zeros, find_tensor, is_reordering, merge, CanonError,
};
use crate::coeff::{ratio_negation, ratio_of_integer, ratio_product, Coefficient};
use crate::repr::{
    definitions_view, terms_view, Computation, ComputationView, GeneratorView, Index, IndexId, RangeId, TensorDef,
    TensorDefView, TensorId, TensorInfo, TensorInfoView, TensorRef, TensorRefView, Term, TermView,
};
use crate::state::canonicalize::canonical_form;
use crate::state::{is_validation_error, State, StateError, StateView};
use crate::valid::lookup_tensor;
use vstd::prelude::*;

verus! {

/// A structural or canonicalization failure during equivalence checking.
#[derive(Clone, Debug, PartialEq, Eq)]
pub enum VerifyError {
    InvalidComputation { side: &'static str, error: StateError },
    ProtectedOutputsMismatch { lhs: Vec<TensorId>, rhs: Vec<TensorId> },
    TensorMetadataMismatch { tensor: TensorId },
    OutputArityMismatch { tensor: TensorId, lhs: usize, rhs: usize },
    OutputRangeMismatch { tensor: TensorId, position: usize, lhs: RangeId, rhs: RangeId },
    SourceArityMismatch { tensor: TensorId, expected: usize, got: usize },
    ExhaustedIndexIds,
    Canonicalization(CanonError),
}

impl From<CanonError> for VerifyError {
    fn from(error: CanonError) -> (r: Self) {
        VerifyError::Canonicalization(error)
    }
}

impl vstd::std_specs::convert::FromSpecImpl<CanonError> for VerifyError {
    open spec fn obeys_from_spec() -> bool {
        true
    }

    open spec fn from_spec(error: CanonError) -> VerifyError {
        VerifyError::Canonicalization(error)
    }
}

// ----------------------------------------------------------------------------
// Fresh index identities
// ----------------------------------------------------------------------------

/// The number of index identities; a counter past it has none left to give.
pub open spec fn id_space() -> int {
    0x1_0000_0000
}

/// Take the next fresh identity from a counter.
pub fn fresh_index(next: &mut u64) -> (r: Result<IndexId, VerifyError>)
    ensures
        *old(next) < id_space() ==> r == Ok::<IndexId, VerifyError>(IndexId(*old(next) as u32))
            && *final(next) == *old(next) + 1,
        *old(next) >= id_space() ==> r == Err::<IndexId, VerifyError>(VerifyError::ExhaustedIndexIds)
            && *final(next) == *old(next),
{
    if *next > 0xffff_ffffu64 {
        return Err(VerifyError::ExhaustedIndexIds);
    }
    let id = IndexId(*next as u32);
    *next = *next + 1;
    Ok(id)
}

/// Whether a definition mentions the identity `id`: as an external, a summed
/// index, or a factor slot.
pub open spec fn definition_mentions(d: TensorDefView, id: IndexId) -> bool {
    ||| exists|k: int| 0 <= k < d.exts.len() && (#[trigger] d.exts[k]).id == id
    ||| exists|t: int, k: int|
        0 <= t < d.rhs.len() && 0 <= k < d.rhs[t].sums.len() && (#[trigger] d.rhs[t].sums[k]).id == id
    ||| exists|t: int, f: int, k: int|
        0 <= t < d.rhs.len() && 0 <= f < d.rhs[t].factors.len() && 0 <= k
            < d.rhs[t].factors[f].indices.len() && #[trigger] d.rhs[t].factors[f].indices[k] == id
}

/// Whether some definition of a computation mentions `id`.
pub open spec fn computation_mentions(c: ComputationView, id: IndexId) -> bool {
    exists|p: int| 0 <= p < c.definitions.len() && definition_mentions(#[trigger] c.definitions[p], id)
}

/// `bound` is one past the largest identity that either computation
/// mentions, or zero where they mention none.
pub open spec fn is_fresh_bound(lhs: ComputationView, rhs: ComputationView, bound: int) -> bool {
    &&& forall|id: IndexId|
        computation_mentions(lhs, id) || computation_mentions(rhs, id) ==> #[trigger] id.0 < bound
    &&& bound == 0 || computation_mentions(lhs, IndexId((bound - 1) as u32)) || computation_mentions(
        rhs,
        IndexId((bound - 1) as u32),
    )
    &&& 0 <= bound <= id_space()
}

/// The first identity that neither computation mentions above all the others.
pub open spec fn fresh_bound(lhs: ComputationView, rhs: ComputationView) -> int {
    choose|bound: int| is_fresh_bound(lhs, rhs, bound)
}

/// At most one bound meets [`is_fresh_bound`].
pub proof fn lemma_fresh_bound_unique(lhs: ComputationView, rhs: ComputationView, a: int, b: int)
    requires
        is_fresh_bound(lhs, rhs, a),
        is_fresh_bound(lhs, rhs, b),
    ensures
        a == b,
{
    if a < b {
        let id = IndexId((b - 1) as u32);
        assert(id.0 < a);
    } else if b < a {
        let id = IndexId((a - 1) as u32);
        assert(id.0 < b);
    }
}

/// Raise `bound` above every identity in `ids`.
fn raise_over_ids(ids: &Vec<IndexId>, bound: u64) -> (r: u64)
    requires
        bound <= id_space(),
    ensures
        bound <= r <= id_space(),
        forall|k: int| 0 <= k < ids.len() ==> (#[trigger] ids@[k]).0 < r,
        r == bound || exists|k: int| 0 <= k < ids.len() && (#[trigger] ids@[k]).0 + 1 == r,
{
    let mut r = bound;
    let mut k: usize = 0;
    while k < ids.len()
        invariant
            k <= ids.len(),
            bound <= r <= id_space(),
            forall|j: int| 0 <= j < k ==> (#[trigger] ids@[j]).0 < r,
            r == bound || exists|j: int| 0 <= j < k && (#[trigger] ids@[j]).0 + 1 == r,
        decreases ids.len() - k,
    {
        let next = ids[k].0 as u64 + 1;
        if next > r {
            r = next;
        }
        k = k + 1;
    }
    r
}

/// Raise `bound` above every identity declared in `indices`.
fn raise_over_indices(indices: &Vec<Index>, bound: u64) -> (r: u64)
    requires
        bound <= id_space(),
    ensures
        bound <= r <= id_space(),
        forall|k: int| 0 <= k < indices.len() ==> (#[trigger] indices@[k]).id.0 < r,
        r == bound || exists|k: int| 0 <= k < indices.len() && (#[trigger] indices@[k]).id.0 + 1 == r,
{
    let mut r = bound;
    let mut k: usize = 0;
    while k < indices.len()
        invariant
            k <= indices.len(),
            bound <= r <= id_space(),
            forall|j: int| 0 <= j < k ==> (#[trigger] indices@[j]).id.0 < r,
            r == bound || exists|j: int| 0 <= j < k && (#[trigger] indices@[j]).id.0 + 1 == r,
        decreases indices.len() - k,
    {
        let next = indices[k].id.0 as u64 + 1;
        if next > r {
            r = next;
        }
        k = k + 1;
    }
    r
}

/// Raise `bound` above every identity that a definition mentions.
fn raise_over_definition(d: &TensorDef, bound: u64) -> (r: u64)
    requires
        bound <= id_space(),
    ensures
        bound <= r <= id_space(),
        forall|id: IndexId| definition_mentions(d@, id) ==> #[trigger] id.0 < r,
        r == bound || definition_mentions(d@, IndexId((r - 1) as u32)),
{
    let mut r = raise_over_indices(&d.exts, bound);
    proof {
        if r != bound {
            let k = choose|k: int| 0 <= k < d.exts.len() && (#[trigger] d.exts@[k]).id.0 + 1 == r;
            assert(d@.exts[k].id == IndexId((r - 1) as u32));
        }
    }
    let mut t: usize = 0;
    while t < d.rhs.len()
        invariant
            t <= d.rhs.len(),
            bound <= r <= id_space(),
            forall|k: int| 0 <= k < d.exts.len() ==> (#[trigger] d@.exts[k]).id.0 < r,
            forall|u: int, k: int|
                0 <= u < t && 0 <= k < d@.rhs[u].sums.len() ==> (#[trigger] d@.rhs[u].sums[k]).id.0 < r,
            forall|u: int, f: int, k: int|
                0 <= u < t && 0 <= f < d@.rhs[u].factors.len() && 0 <= k
                    < d@.rhs[u].factors[f].indices.len() ==> (#[trigger] d@.rhs[u].factors[f].indices[k]).0
                    < r,
            r == bound || definition_mentions(d@, IndexId((r - 1) as u32)),
        decreases d.rhs.len() - t,
    {
        let term = &d.rhs[t];
        assert(d@.rhs[t as int] == term@);
        let before = r;
        r = raise_over_indices(&term.sums, r);
        proof {
            if r != before {
                let k = choose|k: int| 0 <= k < term.sums.len() && (#[trigger] term.sums@[k]).id.0 + 1 == r;
                assert(d@.rhs[t as int].sums[k].id == IndexId((r - 1) as u32));
            }
        }
        let mut f: usize = 0;
        while f < term.factors.len()
            invariant
                t < d.rhs.len(),
                term == &d.rhs[t as int],
                d@.rhs[t as int] == term@,
                f <= term.factors.len(),
                before <= r <= id_space(),
                bound <= before,
                forall|k: int| 0 <= k < d.exts.len() ==> (#[trigger] d@.exts[k]).id.0 < r,
                forall|u: int, k: int|
                    0 <= u <= t && 0 <= k < d@.rhs[u].sums.len() ==> (#[trigger] d@.rhs[u].sums[k]).id.0
                        < r,
                forall|u: int, g: int, k: int|
                    0 <= u < t && 0 <= g < d@.rhs[u].factors.len() && 0 <= k
                        < d@.rhs[u].factors[g].indices.len() ==> (
                    #[trigger] d@.rhs[u].factors[g].indices[k]).0 < r,
                forall|g: int, k: int|
                    0 <= g < f && 0 <= k < d@.rhs[t as int].factors[g].indices.len() ==> (
                    #[trigger] d@.rhs[t as int].factors[g].indices[k]).0 < r,
                r == bound || definition_mentions(d@, IndexId((r - 1) as u32)),
            decreases term.factors.len() - f,
        {
            let factor = &term.factors[f];
            assert(term@.factors[f as int] == factor@);
            let prior = r;
            r = raise_over_ids(&factor.indices, r);
            proof {
                if r != prior {
                    let k = choose|k: int|
                        0 <= k < factor.indices.len() && (#[trigger] factor.indices@[k]).0 + 1 == r;
                    assert(d@.rhs[t as int].factors[f as int].indices[k] == IndexId((r - 1) as u32));
                }
            }
            f = f + 1;
        }
        proof {
            assert forall|u: int, g: int, k: int|
                0 <= u < t + 1 && 0 <= g < d@.rhs[u].factors.len() && 0 <= k
                    < d@.rhs[u].factors[g].indices.len() implies (#[trigger] d@.rhs[u].factors[g].indices[k]).0
                    < r by {
                if u == t {
                    assert(d@.rhs[t as int].factors[g].indices[k].0 < r);
                }
            }
        }
        t = t + 1;
    }
    proof {
        assert forall|id: IndexId| definition_mentions(d@, id) implies #[trigger] id.0 < r by {
            if exists|k: int| 0 <= k < d@.exts.len() && (#[trigger] d@.exts[k]).id == id {
                let k = choose|k: int| 0 <= k < d@.exts.len() && (#[trigger] d@.exts[k]).id == id;
                assert(d@.exts[k].id.0 < r);
            } else if exists|u: int, k: int|
                0 <= u < d@.rhs.len() && 0 <= k < d@.rhs[u].sums.len() && (#[trigger] d@.rhs[u].sums[k]).id
                    == id {
                let (u, k) = choose|u: int, k: int|
                    0 <= u < d@.rhs.len() && 0 <= k < d@.rhs[u].sums.len() && (
                    #[trigger] d@.rhs[u].sums[k]).id == id;
                assert(d@.rhs[u].sums[k].id.0 < r);
            } else {
                let (u, g, k) = choose|u: int, g: int, k: int|
                    0 <= u < d@.rhs.len() && 0 <= g < d@.rhs[u].factors.len() && 0 <= k
                        < d@.rhs[u].factors[g].indices.len() && #[trigger] d@.rhs[u].factors[g].indices[k]
                        == id;
                assert(d@.rhs[u].factors[g].indices[k].0 < r);
            }
        }
    }
    r
}

/// One past the largest identity mentioned by either computation.
pub fn first_fresh_index(lhs: &Computation, rhs: &Computation) -> (r: u64)
    ensures
        r == fresh_bound(lhs@, rhs@),
        is_fresh_bound(lhs@, rhs@, r as int),
{
    let mut r: u64 = 0;
    let mut p: usize = 0;
    while p < lhs.definitions.len()
        invariant
            p <= lhs.definitions.len(),
            r <= id_space(),
            forall|q: int, id: IndexId|
                0 <= q < p && #[trigger] definition_mentions(lhs@.definitions[q], id) ==> id.0 < r,
            r == 0 || computation_mentions(lhs@, IndexId((r - 1) as u32)),
        decreases lhs.definitions.len() - p,
    {
        r = raise_over_definition(&lhs.definitions[p], r);
        assert(lhs@.definitions[p as int] == lhs.definitions@[p as int]@);
        p = p + 1;
    }
    let mut p: usize = 0;
    while p < rhs.definitions.len()
        invariant
            p <= rhs.definitions.len(),
            r <= id_space(),
            forall|q: int, id: IndexId|
                0 <= q < lhs@.definitions.len() && #[trigger] definition_mentions(lhs@.definitions[q], id)
                    ==> id.0 < r,
            forall|q: int, id: IndexId|
                0 <= q < p && #[trigger] definition_mentions(rhs@.definitions[q], id) ==> id.0 < r,
            r == 0 || computation_mentions(lhs@, IndexId((r - 1) as u32)) || computation_mentions(
                rhs@,
                IndexId((r - 1) as u32),
            ),
        decreases rhs.definitions.len() - p,
    {
        r = raise_over_definition(&rhs.definitions[p], r);
        assert(rhs@.definitions[p as int] == rhs.definitions@[p as int]@);
        p = p + 1;
    }
    proof {
        assert forall|id: IndexId|
            computation_mentions(lhs@, id) || computation_mentions(rhs@, id) implies #[trigger] id.0 < r by {
            if computation_mentions(lhs@, id) {
                let q = choose|q: int| 0 <= q < lhs@.definitions.len() && definition_mentions(
                    #[trigger] lhs@.definitions[q],
                    id,
                );
            } else {
                let q = choose|q: int| 0 <= q < rhs@.definitions.len() && definition_mentions(
                    #[trigger] rhs@.definitions[q],
                    id,
                );
            }
        }
        assert(is_fresh_bound(lhs@, rhs@, r as int));
        lemma_fresh_bound_unique(lhs@, rhs@, r as int, fresh_bound(lhs@, rhs@));
    }
    r
}

// ----------------------------------------------------------------------------
// Output interfaces and the shared context
// ----------------------------------------------------------------------------

/// `position` is the first slot where two interfaces disagree on the range.
pub open spec fn first_range_mismatch(lhs: Seq<Index>, rhs: Seq<Index>, position: int) -> bool {
    &&& 0 <= position < lhs.len()
    &&& position < rhs.len()
    &&& lhs[position].range != rhs[position].range
    &&& forall|q: int| 0 <= q < position ==> (#[trigger] lhs[q]).range == rhs[q].range
}

/// Compare the arity and the ranges of two definitions of one output.
pub fn compare_output_interfaces(lhs: &TensorDef, rhs: &TensorDef) -> (r: Result<(), VerifyError>)
    ensures
        lhs.exts.len() != rhs.exts.len() ==> r == Err::<(), VerifyError>(
            VerifyError::OutputArityMismatch { tensor: lhs.base, lhs: lhs.exts.len(), rhs: rhs.exts.len() },
        ),
        lhs.exts.len() == rhs.exts.len() && (forall|q: int|
            0 <= q < lhs.exts.len() ==> (#[trigger] lhs@.exts[q]).range == rhs@.exts[q].range) ==> r is Ok,
        lhs.exts.len() == rhs.exts.len() && (exists|q: int|
            0 <= q < lhs.exts.len() && (#[trigger] lhs@.exts[q]).range != rhs@.exts[q].range) ==> (r matches Err(
            VerifyError::OutputRangeMismatch { tensor, position, lhs: lr, rhs: rr },
        ) && tensor == lhs.base && first_range_mismatch(lhs@.exts, rhs@.exts, position as int) && lr
            == lhs@.exts[position as int].range && rr == rhs@.exts[position as int].range),
{
    if lhs.exts.len() != rhs.exts.len() {
        return Err(
            VerifyError::OutputArityMismatch { tensor: lhs.base, lhs: lhs.exts.len(), rhs: rhs.exts.len() },
        );
    }
    let mut position: usize = 0;
    while position < lhs.exts.len()
        invariant
            position <= lhs.exts.len() == rhs.exts.len(),
            forall|q: int| 0 <= q < position ==> (#[trigger] lhs@.exts[q]).range == rhs@.exts[q].range,
        decreases lhs.exts.len() - position,
    {
        if lhs.exts[position].range != rhs.exts[position].range {
            assert(lhs@.exts[position as int].range != rhs@.exts[position as int].range);
            return Err(
                VerifyError::OutputRangeMismatch {
                    tensor: lhs.base,
                    position,
                    lhs: lhs.exts[position].range,
                    rhs: rhs.exts[position].range,
                },
            );
        }
        position = position + 1;
    }
    Ok(())
}

/// Whether two permutations agree.
fn same_perm(x: &Vec<usize>, y: &Vec<usize>) -> (r: bool)
    ensures
        r == (x@ == y@),
{
    if x.len() != y.len() {
        return false;
    }
    let mut k: usize = 0;
    while k < x.len()
        invariant
            k <= x.len() == y.len(),
            forall|j: int| 0 <= j < k ==> x@[j] == y@[j],
        decreases x.len() - k,
    {
        if x[k] != y[k] {
            return false;
        }
        k = k + 1;
    }
    assert(x@ =~= y@);
    true
}

/// Whether two tensor descriptions agree.
fn same_info(a: &TensorInfo, b: &TensorInfo) -> (r: bool)
    ensures
        r == (a@ == b@),
{
    if a.rank != b.rank || a.symmetry.len() != b.symmetry.len() {
        proof {
            if a@ == b@ {
                assert(a@.symmetry.len() == b@.symmetry.len());
            }
        }
        return false;
    }
    let mut g: usize = 0;
    while g < a.symmetry.len()
        invariant
            g <= a.symmetry.len() == b.symmetry.len(),
            a.rank == b.rank,
            forall|h: int| 0 <= h < g ==> (#[trigger] a@.symmetry[h]) == b@.symmetry[h],
        decreases a.symmetry.len() - g,
    {
        let x = &a.symmetry[g];
        let y = &b.symmetry[g];
        assert(a@.symmetry[g as int] == x@ && b@.symmetry[g as int] == y@);
        if x.action != y.action || x.perm.len() != y.perm.len() {
            proof {
                if a@ == b@ {
                    assert(a@.symmetry[g as int] == b@.symmetry[g as int]);
                    assert(x@.perm.len() == y@.perm.len());
                }
            }
            return false;
        }
        if !same_perm(&x.perm, &y.perm) {
            proof {
                if a@ == b@ {
                    assert(a@.symmetry[g as int] == b@.symmetry[g as int]);
                }
            }
            return false;
        }
        assert(x@.perm =~= y@.perm);
        assert(x@ == y@);
        g = g + 1;
    }
    assert(a@.symmetry =~= b@.symmetry);
    true
}

/// `ids` lists tensors in strictly increasing order.
pub open spec fn tensors_ascending(ids: Seq<TensorId>) -> bool {
    forall|a: int, b: int| 0 <= a < b < ids.len() ==> (#[trigger] ids[a]).0 < (#[trigger] ids[b]).0
}

/// `ids` lists ranges in strictly increasing order.
pub open spec fn ranges_ascending(ids: Seq<RangeId>) -> bool {
    forall|a: int, b: int| 0 <= a < b < ids.len() ==> (#[trigger] ids[a]).0 < (#[trigger] ids[b]).0
}

/// Add a tensor to an ascending list unless it is there already.
fn add_tensor(set: &mut Vec<TensorId>, x: TensorId)
    requires
        tensors_ascending(old(set)@),
    ensures
        tensors_ascending(final(set)@),
        forall|y: TensorId| final(set)@.contains(y) <==> old(set)@.contains(y) || y == x,
{
    let mut at: usize = 0;
    while at < set.len() && set[at].0 < x.0
        invariant
            at <= set.len(),
            forall|j: int| 0 <= j < at ==> (#[trigger] set@[j]).0 < x.0,
        decreases set.len() - at,
    {
        at = at + 1;
    }
    if at < set.len() && set[at].0 == x.0 {
        assert(set@[at as int] == x);
        assert(set@.contains(x));
        return;
    }
    let ghost before = set@;
    set.insert(at, x);
    proof {
        assert(set@ =~= before.insert(at as int, x));
        assert forall|y: TensorId| set@.contains(y) <==> before.contains(y) || y == x by {
            if set@.contains(y) {
                let j = choose|j: int| 0 <= j < set@.len() && set@[j] == y;
                if j < at {
                    assert(before[j] == y);
                } else if j > at {
                    assert(before[j - 1] == y);
                }
            }
            if before.contains(y) {
                let j = choose|j: int| 0 <= j < before.len() && before[j] == y;
                if j < at {
                    assert(set@[j] == y);
                } else {
                    assert(set@[j + 1] == y);
                }
            }
            if y == x {
                assert(set@[at as int] == y);
            }
        }
        assert(before == old(set)@);
        assert(forall|y: TensorId| set@.contains(y) <==> old(set)@.contains(y) || y == x);
        assert(tensors_ascending(set@)) by {
            assert forall|a: int, b: int| 0 <= a < b < set@.len() implies (#[trigger] set@[a]).0 < (
            #[trigger] set@[b]).0 by {
                if b < at {
                    assert(set@[a] == before[a] && set@[b] == before[b]);
                } else if b == at {
                    assert(set@[a] == before[a]);
                } else if a < at {
                    assert(set@[a] == before[a] && set@[b] == before[b - 1]);
                    assert(before[at as int].0 > x.0);
                    if b - 1 > at {
                        assert(before[at as int].0 < before[b - 1].0);
                    }
                } else if a == at {
                    assert(set@[b] == before[b - 1]);
                    assert(before[at as int].0 > x.0);
                    if b - 1 > at {
                        assert(before[at as int].0 < before[b - 1].0);
                    }
                } else {
                    assert(set@[a] == before[a - 1] && set@[b] == before[b - 1]);
                }
            }
        }
    }
}

/// Add a range to an ascending list unless it is there already.
fn add_range(set: &mut Vec<RangeId>, x: RangeId)
    requires
        ranges_ascending(old(set)@),
    ensures
        ranges_ascending(final(set)@),
        forall|y: RangeId| final(set)@.contains(y) <==> old(set)@.contains(y) || y == x,
{
    let mut at: usize = 0;
    while at < set.len() && set[at].0 < x.0
        invariant
            at <= set.len(),
            forall|j: int| 0 <= j < at ==> (#[trigger] set@[j]).0 < x.0,
        decreases set.len() - at,
    {
        at = at + 1;
    }
    if at < set.len() && set[at].0 == x.0 {
        assert(set@[at as int] == x);
        assert(set@.contains(x));
        return;
    }
    let ghost before = set@;
    set.insert(at, x);
    proof {
        assert(set@ =~= before.insert(at as int, x));
        assert forall|y: RangeId| set@.contains(y) <==> before.contains(y) || y == x by {
            if set@.contains(y) {
                let j = choose|j: int| 0 <= j < set@.len() && set@[j] == y;
                if j < at {
                    assert(before[j] == y);
                } else if j > at {
                    assert(before[j - 1] == y);
                }
            }
            if before.contains(y) {
                let j = choose|j: int| 0 <= j < before.len() && before[j] == y;
                if j < at {
                    assert(set@[j] == y);
                } else {
                    assert(set@[j + 1] == y);
                }
            }
            if y == x {
                assert(set@[at as int] == y);
            }
        }
        assert(before == old(set)@);
        assert(forall|y: RangeId| set@.contains(y) <==> old(set)@.contains(y) || y == x);
        assert(ranges_ascending(set@)) by {
            assert forall|a: int, b: int| 0 <= a < b < set@.len() implies (#[trigger] set@[a]).0 < (
            #[trigger] set@[b]).0 by {
                if b < at {
                    assert(set@[a] == before[a] && set@[b] == before[b]);
                } else if b == at {
                    assert(set@[a] == before[a]);
                } else if a < at {
                    assert(set@[a] == before[a] && set@[b] == before[b - 1]);
                    assert(before[at as int].0 > x.0);
                    if b - 1 > at {
                        assert(before[at as int].0 < before[b - 1].0);
                    }
                } else if a == at {
                    assert(set@[b] == before[b - 1]);
                    assert(before[at as int].0 > x.0);
                    if b - 1 > at {
                        assert(before[at as int].0 < before[b - 1].0);
                    }
                } else {
                    assert(set@[a] == before[a - 1] && set@[b] == before[b - 1]);
                }
            }
        }
    }
}

/// Whether a factor of some term of `defs` names `tensor`.
pub open spec fn names_tensor(defs: Seq<TensorDefView>, tensor: TensorId) -> bool {
    exists|p: int, t: int, f: int|
        0 <= p < defs.len() && 0 <= t < defs[p].rhs.len() && 0 <= f < defs[p].rhs[t].factors.len()
            && #[trigger] defs[p].rhs[t].factors[f].tensor == tensor
}

/// The tensors named by the factors of some definitions, in ascending order.
pub fn factor_tensors(definitions: &Vec<TensorDef>) -> (r: Vec<TensorId>)
    ensures
        tensors_ascending(r@),
        forall|t: TensorId| r@.contains(t) <==> names_tensor(definitions_view(definitions@), t),
{
    let ghost defs = definitions_view(definitions@);
    let mut r: Vec<TensorId> = Vec::new();
    let mut p: usize = 0;
    while p < definitions.len()
        invariant
            p <= definitions.len(),
            defs == definitions_view(definitions@),
            tensors_ascending(r@),
            forall|x: TensorId| r@.contains(x) <==> names_tensor(defs.take(p as int), x),
        decreases definitions.len() - p,
    {
        let d = &definitions[p];
        assert(defs[p as int] == d@);
        let mut t: usize = 0;
        while t < d.rhs.len()
            invariant
                p < definitions.len(),
                d == &definitions@[p as int],
                defs[p as int] == d@,
                t <= d.rhs.len(),
                tensors_ascending(r@),
                forall|x: TensorId| r@.contains(x) <==> names_tensor(defs.take(p as int), x) || exists|u: int, f: int|
                    0 <= u < t && 0 <= f < d@.rhs[u].factors.len() && #[trigger] d@.rhs[u].factors[f].tensor == x,
            decreases d.rhs.len() - t,
        {
            let term = &d.rhs[t];
            assert(d@.rhs[t as int] == term@);
            let mut f: usize = 0;
            while f < term.factors.len()
                invariant
                    p < definitions.len(),
                    t < d.rhs.len(),
                    d@.rhs[t as int] == term@,
                    f <= term.factors.len(),
                    tensors_ascending(r@),
                    forall|x: TensorId| r@.contains(x) <==> names_tensor(defs.take(p as int), x) || (exists|u: int, g: int|
                        0 <= u < t && 0 <= g < d@.rhs[u].factors.len() && #[trigger] d@.rhs[u].factors[g].tensor == x) || (exists|g: int|
                        0 <= g < f && #[trigger] term@.factors[g].tensor == x),
                decreases term.factors.len() - f,
            {
                assert(term@.factors[f as int] == term.factors@[f as int]@);
                add_tensor(&mut r, term.factors[f].tensor);
                proof {
                    let x = term.factors@[f as int].tensor;
                    assert(term@.factors[f as int].tensor == x);
                    assert forall|y: TensorId| r@.contains(y) <==> names_tensor(defs.take(p as int), y) || (exists|u: int, g: int|
                        0 <= u < t && 0 <= g < d@.rhs[u].factors.len() && #[trigger] d@.rhs[u].factors[g].tensor == y) || (exists|g: int|
                        0 <= g < f + 1 && #[trigger] term@.factors[g].tensor == y) by {
                        if exists|g: int| 0 <= g < f + 1 && #[trigger] term@.factors[g].tensor == y {
                            let g = choose|g: int| 0 <= g < f + 1 && #[trigger] term@.factors[g].tensor == y;
                            if g < f {
                                assert(exists|g: int| 0 <= g < f && #[trigger] term@.factors[g].tensor == y);
                            }
                        }
                    }
                }
                f = f + 1;
            }
            proof {
                assert forall|y: TensorId| r@.contains(y) <==> names_tensor(defs.take(p as int), y) || exists|u: int, g: int|
                    0 <= u < t + 1 && 0 <= g < d@.rhs[u].factors.len() && #[trigger] d@.rhs[u].factors[g].tensor == y by {
                    if exists|g: int| 0 <= g < term.factors.len() && #[trigger] term@.factors[g].tensor == y {
                        let g = choose|g: int| 0 <= g < term.factors.len() && #[trigger] term@.factors[g].tensor == y;
                        assert(d@.rhs[t as int].factors[g].tensor == y);
                    }
                    if exists|u: int, g: int|
                        0 <= u < t + 1 && 0 <= g < d@.rhs[u].factors.len() && #[trigger] d@.rhs[u].factors[g].tensor == y {
                        let (u, g) = choose|u: int, g: int|
                            0 <= u < t + 1 && 0 <= g < d@.rhs[u].factors.len() && #[trigger] d@.rhs[u].factors[g].tensor == y;
                        if u == t {
                            assert(term@.factors[g].tensor == y);
                        }
                    }
                }
            }
            t = t + 1;
        }
        proof {
            assert forall|y: TensorId| r@.contains(y) <==> names_tensor(defs.take(p + 1), y) by {
                if names_tensor(defs.take(p + 1), y) {
                    let (q, u, g) = choose|q: int, u: int, g: int|
                        0 <= q < defs.take(p + 1).len() && 0 <= u < defs.take(p + 1)[q].rhs.len() && 0 <= g
                            < defs.take(p + 1)[q].rhs[u].factors.len() && #[trigger] defs.take(p + 1)[q].rhs[u].factors[g].tensor
                            == y;
                    if q < p {
                        assert(defs.take(p as int)[q] == defs.take(p + 1)[q]);
                        assert(defs.take(p as int)[q].rhs[u].factors[g].tensor == y);
                    } else {
                        assert(d@.rhs[u].factors[g].tensor == y);
                    }
                }
                if names_tensor(defs.take(p as int), y) {
                    let (q, u, g) = choose|q: int, u: int, g: int|
                        0 <= q < defs.take(p as int).len() && 0 <= u < defs.take(p as int)[q].rhs.len() && 0 <= g
                            < defs.take(p as int)[q].rhs[u].factors.len() && #[trigger] defs.take(p as int)[q].rhs[u].factors[g].tensor
                            == y;
                    assert(defs.take(p + 1)[q] == defs.take(p as int)[q]);
                    assert(defs.take(p + 1)[q].rhs[u].factors[g].tensor == y);
                }
                if exists|u: int, g: int|
                    0 <= u < d@.rhs.len() && 0 <= g < d@.rhs[u].factors.len() && #[trigger] d@.rhs[u].factors[g].tensor == y {
                    let (u, g) = choose|u: int, g: int|
                        0 <= u < d@.rhs.len() && 0 <= g < d@.rhs[u].factors.len() && #[trigger] d@.rhs[u].factors[g].tensor == y;
                    assert(defs.take(p + 1)[p as int] == d@);
                    assert(defs.take(p + 1)[p as int].rhs[u].factors[g].tensor == y);
                }
            }
        }
        p = p + 1;
    }
    assert(defs.take(definitions.len() as int) =~= defs);
    r
}

/// Whether `ids` holds `x`.
fn holds_tensor(ids: &Vec<TensorId>, x: TensorId) -> (r: bool)
    ensures
        r == ids@.contains(x),
{
    let mut k: usize = 0;
    while k < ids.len()
        invariant
            k <= ids.len(),
            forall|j: int| 0 <= j < k ==> ids@[j] != x,
        decreases ids.len() - k,
    {
        if ids[k] == x {
            assert(ids@[k as int] == x);
            return true;
        }
        k = k + 1;
    }
    false
}

/// A tensor that both sides name but describe differently.
pub open spec fn metadata_conflict(
    lhs: ComputationView,
    rhs: ComputationView,
    lhs_defs: Seq<TensorDefView>,
    rhs_defs: Seq<TensorDefView>,
    tensor: TensorId,
) -> bool {
    &&& names_tensor(lhs_defs, tensor)
    &&& names_tensor(rhs_defs, tensor)
    &&& lookup_tensor(lhs.tensors, tensor) != lookup_tensor(rhs.tensors, tensor)
}

/// The description of a named tensor, from the left side where it names it.
pub open spec fn context_info(
    lhs: ComputationView,
    rhs: ComputationView,
    lhs_defs: Seq<TensorDefView>,
    tensor: TensorId,
) -> TensorInfoView {
    if names_tensor(lhs_defs, tensor) {
        lookup_tensor(lhs.tensors, tensor).unwrap()
    } else {
        lookup_tensor(rhs.tensors, tensor).unwrap()
    }
}

/// `c` is the context in which both sides are compared: no definitions, the
/// union of the declared ranges, and each tensor that either side names, in
/// ascending order, with its description.
pub open spec fn is_merged_context(
    lhs: ComputationView,
    rhs: ComputationView,
    lhs_defs: Seq<TensorDefView>,
    rhs_defs: Seq<TensorDefView>,
    c: ComputationView,
) -> bool {
    &&& c.definitions.len() == 0
    &&& ranges_ascending(c.ranges)
    &&& forall|x: RangeId| c.ranges.contains(x) <==> lhs.ranges.contains(x) || rhs.ranges.contains(x)
    &&& forall|a: int, b: int| 0 <= a < b < c.tensors.len() ==> (#[trigger] c.tensors[a]).0.0 < (
    #[trigger] c.tensors[b]).0.0
    &&& forall|t: TensorId|
        (exists|k: int| 0 <= k < c.tensors.len() && (#[trigger] c.tensors[k]).0 == t) <==> names_tensor(
            lhs_defs,
            t,
        ) || names_tensor(rhs_defs, t)
    &&& forall|k: int|
        0 <= k < c.tensors.len() ==> (#[trigger] c.tensors[k]).1 == context_info(
            lhs,
            rhs,
            lhs_defs,
            c.tensors[k].0,
        )
}

/// The context in which the inlined outputs of both sides are compared.
pub fn merged_context(
    lhs: &Computation,
    rhs: &Computation,
    lhs_definitions: &Vec<TensorDef>,
    rhs_definitions: &Vec<TensorDef>,
) -> (r: Result<Computation, VerifyError>)
    requires
        forall|t: TensorId|
            names_tensor(definitions_view(lhs_definitions@), t) ==> #[trigger] lookup_tensor(lhs@.tensors, t) is Some,
        forall|t: TensorId|
            names_tensor(definitions_view(rhs_definitions@), t) ==> #[trigger] lookup_tensor(rhs@.tensors, t) is Some,
    ensures
        ({
            let ld = definitions_view(lhs_definitions@);
            let rd = definitions_view(rhs_definitions@);
            &&& (exists|t: TensorId| metadata_conflict(lhs@, rhs@, ld, rd, t)) ==> (r matches Err(
                VerifyError::TensorMetadataMismatch { tensor },
            ) && metadata_conflict(lhs@, rhs@, ld, rd, tensor) && forall|t: TensorId|
                #[trigger] metadata_conflict(lhs@, rhs@, ld, rd, t) ==> tensor.0 <= t.0)
            &&& (forall|t: TensorId| !metadata_conflict(lhs@, rhs@, ld, rd, t)) ==> (r matches Ok(c)
                && is_merged_context(lhs@, rhs@, ld, rd, c@))
        }),
{
    let ghost ld = definitions_view(lhs_definitions@);
    let ghost rd = definitions_view(rhs_definitions@);
    let lhs_tensors = factor_tensors(lhs_definitions);
    let rhs_tensors = factor_tensors(rhs_definitions);
    let mut all = lhs_tensors.clone();
    assert(all@ == lhs_tensors@);
    let mut k: usize = 0;
    while k < rhs_tensors.len()
        invariant
            k <= rhs_tensors.len(),
            tensors_ascending(all@),
            forall|t: TensorId| all@.contains(t) <==> lhs_tensors@.contains(t) || exists|j: int|
                0 <= j < k && rhs_tensors@[j] == t,
        decreases rhs_tensors.len() - k,
    {
        add_tensor(&mut all, rhs_tensors[k]);
        proof {
            assert forall|t: TensorId| all@.contains(t) <==> lhs_tensors@.contains(t) || exists|j: int|
                0 <= j < k + 1 && rhs_tensors@[j] == t by {
                if t == rhs_tensors@[k as int] {
                    assert(rhs_tensors@[k as int] == t);
                }
            }
        }
        k = k + 1;
    }
    proof {
        assert forall|t: TensorId| all@.contains(t) <==> names_tensor(ld, t) || names_tensor(rd, t) by {
            if rhs_tensors@.contains(t) {
                let j = choose|j: int| 0 <= j < rhs_tensors.len() && rhs_tensors@[j] == t;
            }
            if exists|j: int| 0 <= j < rhs_tensors.len() && rhs_tensors@[j] == t {
                let j = choose|j: int| 0 <= j < rhs_tensors.len() && rhs_tensors@[j] == t;
                assert(rhs_tensors@.contains(t));
            }
        }
    }
    let mut tensors: Vec<(TensorId, TensorInfo)> = Vec::new();
    let mut k: usize = 0;
    while k < all.len()
        invariant
            k <= all.len(),
            ld == definitions_view(lhs_definitions@),
            rd == definitions_view(rhs_definitions@),
            tensors_ascending(all@),
            forall|t: TensorId| all@.contains(t) <==> names_tensor(ld, t) || names_tensor(rd, t),
            forall|t: TensorId| lhs_tensors@.contains(t) <==> names_tensor(ld, t),
            forall|t: TensorId| rhs_tensors@.contains(t) <==> names_tensor(rd, t),
            forall|t: TensorId| names_tensor(ld, t) ==> #[trigger] lookup_tensor(lhs@.tensors, t) is Some,
            forall|t: TensorId| names_tensor(rd, t) ==> #[trigger] lookup_tensor(rhs@.tensors, t) is Some,
            tensors@.len() == k,
            forall|j: int| 0 <= j < k ==> (#[trigger] tensors@[j]).0 == all@[j],
            forall|j: int|
                0 <= j < k ==> (#[trigger] tensors@[j]).1@ == context_info(lhs@, rhs@, ld, all@[j]),
            forall|j: int| 0 <= j < k ==> !metadata_conflict(lhs@, rhs@, ld, rd, #[trigger] all@[j]),
        decreases all.len() - k,
    {
        let tensor = all[k];
        let in_lhs = holds_tensor(&lhs_tensors, tensor);
        let in_rhs = holds_tensor(&rhs_tensors, tensor);
        assert(all@.contains(tensor)) by {
            assert(all@[k as int] == tensor);
        }
        if in_lhs && in_rhs {
            assert(names_tensor(ld, tensor) && names_tensor(rd, tensor));
            assert(lookup_tensor(lhs@.tensors, tensor) is Some);
            assert(lookup_tensor(rhs@.tensors, tensor) is Some);
            let p = find_tensor(&lhs.tensors, tensor).unwrap();
            let q = find_tensor(&rhs.tensors, tensor).unwrap();
            if !same_info(&lhs.tensors[p].1, &rhs.tensors[q].1) {
                proof {
                    assert(metadata_conflict(lhs@, rhs@, ld, rd, tensor));
                    assert forall|t: TensorId| #[trigger] metadata_conflict(lhs@, rhs@, ld, rd, t) implies tensor.0 <= t.0 by {
                        assert(all@.contains(t));
                        let j = choose|j: int| 0 <= j < all.len() && all@[j] == t;
                        if j < k {
                            assert(!metadata_conflict(lhs@, rhs@, ld, rd, all@[j]));
                        }
                    }
                }
                return Err(VerifyError::TensorMetadataMismatch { tensor });
            }
        }
        let info = if in_lhs {
            assert(names_tensor(ld, tensor));
            assert(lookup_tensor(lhs@.tensors, tensor) is Some);
            let p = find_tensor(&lhs.tensors, tensor).unwrap();
            lhs.tensors[p].1.clone()
        } else {
            assert(names_tensor(rd, tensor));
            assert(lookup_tensor(rhs@.tensors, tensor) is Some);
            let q = find_tensor(&rhs.tensors, tensor).unwrap();
            rhs.tensors[q].1.clone()
        };
        tensors.push((tensor, info));
        k = k + 1;
    }
    let mut ranges: Vec<RangeId> = Vec::new();
    let mut k: usize = 0;
    while k < lhs.ranges.len()
        invariant
            k <= lhs.ranges.len(),
            ranges_ascending(ranges@),
            forall|x: RangeId| ranges@.contains(x) <==> exists|j: int| 0 <= j < k && lhs.ranges@[j] == x,
        decreases lhs.ranges.len() - k,
    {
        add_range(&mut ranges, lhs.ranges[k]);
        proof {
            assert forall|x: RangeId| ranges@.contains(x) <==> exists|j: int| 0 <= j < k + 1 && lhs.ranges@[j] == x by {
                if x == lhs.ranges@[k as int] {
                    assert(lhs.ranges@[k as int] == x);
                }
            }
        }
        k = k + 1;
    }
    let mut k: usize = 0;
    while k < rhs.ranges.len()
        invariant
            k <= rhs.ranges.len(),
            ranges_ascending(ranges@),
            forall|x: RangeId| ranges@.contains(x) <==> (exists|j: int| 0 <= j < lhs.ranges.len() && lhs.ranges@[j] == x)
                || exists|j: int| 0 <= j < k && rhs.ranges@[j] == x,
        decreases rhs.ranges.len() - k,
    {
        add_range(&mut ranges, rhs.ranges[k]);
        proof {
            assert forall|x: RangeId| ranges@.contains(x) <==> (exists|j: int| 0 <= j < lhs.ranges.len() && lhs.ranges@[j] == x)
                || exists|j: int| 0 <= j < k + 1 && rhs.ranges@[j] == x by {
                if x == rhs.ranges@[k as int] {
                    assert(rhs.ranges@[k as int] == x);
                }
            }
        }
        k = k + 1;
    }
    let c = Computation { ranges, tensors, definitions: Vec::new() };
    proof {
        let cv = c@;
        assert(cv.ranges == ranges@);
        assert forall|x: RangeId| cv.ranges.contains(x) <==> lhs@.ranges.contains(x) || rhs@.ranges.contains(x) by {
            if lhs@.ranges.contains(x) {
                let j = choose|j: int| 0 <= j < lhs@.ranges.len() && lhs@.ranges[j] == x;
                assert(lhs.ranges@[j] == x);
            }
            if rhs@.ranges.contains(x) {
                let j = choose|j: int| 0 <= j < rhs@.ranges.len() && rhs@.ranges[j] == x;
                assert(rhs.ranges@[j] == x);
            }
            if exists|j: int| 0 <= j < lhs.ranges.len() && lhs.ranges@[j] == x {
                let j = choose|j: int| 0 <= j < lhs.ranges.len() && lhs.ranges@[j] == x;
                assert(lhs@.ranges[j] == x);
            }
            if exists|j: int| 0 <= j < rhs.ranges.len() && rhs.ranges@[j] == x {
                let j = choose|j: int| 0 <= j < rhs.ranges.len() && rhs.ranges@[j] == x;
                assert(rhs@.ranges[j] == x);
            }
        }
        assert forall|t: TensorId|
            (exists|k: int| 0 <= k < cv.tensors.len() && (#[trigger] cv.tensors[k]).0 == t) <==> names_tensor(ld, t)
                || names_tensor(rd, t) by {
            if exists|k: int| 0 <= k < cv.tensors.len() && (#[trigger] cv.tensors[k]).0 == t {
                let k = choose|k: int| 0 <= k < cv.tensors.len() && (#[trigger] cv.tensors[k]).0 == t;
                assert(cv.tensors[k].0 == tensors@[k].0);
                assert(all@[k] == t);
            }
            if names_tensor(ld, t) || names_tensor(rd, t) {
                assert(all@.contains(t));
                let k = choose|k: int| 0 <= k < all.len() && all@[k] == t;
                assert(cv.tensors[k].0 == tensors@[k].0);
            }
        }
        assert forall|a: int, b: int| 0 <= a < b < cv.tensors.len() implies (#[trigger] cv.tensors[a]).0.0 < (
        #[trigger] cv.tensors[b]).0.0 by {
            assert(cv.tensors[a].0 == all@[a] && cv.tensors[b].0 == all@[b]);
        }
        assert forall|k: int| 0 <= k < cv.tensors.len() implies (#[trigger] cv.tensors[k]).1 == context_info(
            lhs@,
            rhs@,
            ld,
            cv.tensors[k].0,
        ) by {
            assert(cv.tensors[k] == (tensors@[k].0, tensors@[k].1@));
        }
        assert(cv.definitions =~= Seq::<TensorDefView>::empty());
    }
    Ok(c)
}

// ----------------------------------------------------------------------------
// Instantiating a source definition
// ----------------------------------------------------------------------------

/// The last position in `indices` declaring `id`, or -1 where none does.
pub open spec fn last_slot(indices: Seq<Index>, id: IndexId) -> int
    decreases indices.len(),
{
    if indices.len() == 0 {
        -1
    } else if indices.last().id == id {
        indices.len() - 1
    } else {
        last_slot(indices.drop_last(), id)
    }
}

/// [`last_slot`] finds the last declaration of `id`, and only fails where
/// there is none.
pub proof fn lemma_last_slot(indices: Seq<Index>, id: IndexId)
    ensures
        -1 <= last_slot(indices, id) < indices.len(),
        last_slot(indices, id) >= 0 ==> indices[last_slot(indices, id)].id == id,
        last_slot(indices, id) >= 0 <==> crate::valid::has_id(indices, id),
        forall|q: int| last_slot(indices, id) < q < indices.len() ==> (#[trigger] indices[q]).id != id,
    decreases indices.len(),
{
    if indices.len() > 0 {
        lemma_last_slot(indices.drop_last(), id);
        if indices.last().id != id {
            if crate::valid::has_id(indices, id) {
                let k = choose|k: int| 0 <= k < indices.len() && (#[trigger] indices[k]).id == id;
                assert(indices.drop_last()[k].id == id);
            }
            if crate::valid::has_id(indices.drop_last(), id) {
                let k = choose|k: int| 0 <= k < indices.len() - 1 && (#[trigger] indices.drop_last()[k]).id == id;
                assert(indices[k].id == id);
            }
            assert forall|q: int| last_slot(indices, id) < q < indices.len() implies (#[trigger] indices[q]).id != id by {
                if q < indices.len() - 1 {
                    assert(indices.drop_last()[q] == indices[q]);
                }
            }
        } else {
            assert(indices[indices.len() - 1].id == id);
        }
    }
}

/// The last position in `indices` declaring `id`.
fn find_last(indices: &Vec<Index>, id: IndexId) -> (r: Option<usize>)
    ensures
        match r {
            Some(p) => p == last_slot(indices@, id),
            None => last_slot(indices@, id) == -1,
        },
{
    proof {
        lemma_last_slot(indices@, id);
    }
    let mut k: usize = indices.len();
    while k > 0
        invariant
            k <= indices.len(),
            forall|q: int| k <= q < indices.len() ==> (#[trigger] indices@[q]).id != id,
            -1 <= last_slot(indices@, id) < indices.len(),
            last_slot(indices@, id) >= 0 ==> indices@[last_slot(indices@, id)].id == id,
            forall|q: int| last_slot(indices@, id) < q < indices.len() ==> (#[trigger] indices@[q]).id != id,
        decreases k,
    {
        if indices[k - 1].id == id {
            assert(indices@[k - 1].id == id);
            return Some(k - 1);
        }
        k = k - 1;
    }
    None
}

/// The number of summed indices over a sequence of terms.
pub open spec fn sum_count(rhs: Seq<TermView>) -> nat
    decreases rhs.len(),
{
    if rhs.len() == 0 {
        0
    } else {
        sum_count(rhs.drop_last()) + rhs.last().sums.len()
    }
}

/// A prefix has no more summed indices than the whole.
pub proof fn lemma_sum_count_prefix(rhs: Seq<TermView>, j: int)
    requires
        0 <= j <= rhs.len(),
    ensures
        sum_count(rhs.take(j)) <= sum_count(rhs),
    decreases rhs.len(),
{
    if j == rhs.len() {
        assert(rhs.take(j) =~= rhs);
    } else {
        lemma_sum_count_prefix(rhs.drop_last(), j);
        assert(rhs.drop_last().take(j) =~= rhs.take(j));
    }
}

/// Whether `count` fresh identities can be taken from a counter at `start`.
pub open spec fn fits(start: int, count: int) -> bool {
    count == 0 || start + count <= id_space()
}

/// Every index of a term's factors is an external or one of its summed indices.
pub open spec fn term_scoped(exts: Seq<Index>, t: TermView) -> bool {
    forall|f: int, k: int|
        0 <= f < t.factors.len() && 0 <= k < t.factors[f].indices.len() ==> crate::valid::has_id(
            exts,
            #[trigger] t.factors[f].indices[k],
        ) || crate::valid::has_id(t.sums, t.factors[f].indices[k])
}

/// Every term of a definition is scoped by its externals.
pub open spec fn definition_scoped(d: TensorDefView) -> bool {
    forall|t: int| 0 <= t < d.rhs.len() ==> term_scoped(d.exts, #[trigger] d.rhs[t])
}

/// The identity that an index of a source term takes in an instance: an
/// external takes the factor's index in its slot, and the summed index in
/// position `i` takes the fresh identity `start + i`.
pub open spec fn instance_id(
    exts: Seq<Index>,
    slots: Seq<IndexId>,
    sums: Seq<Index>,
    start: int,
    id: IndexId,
) -> IndexId {
    if last_slot(exts, id) >= 0 {
        slots[last_slot(exts, id)]
    } else {
        IndexId((start + last_slot(sums, id)) as u32)
    }
}

/// One source term instantiated at a factor's slots.
pub open spec fn instance_term(exts: Seq<Index>, slots: Seq<IndexId>, t: TermView, start: int) -> TermView {
    TermView {
        sums: Seq::new(t.sums.len(), |i: int| Index { id: IndexId((start + i) as u32), range: t.sums[i].range }),
        coeff: t.coeff,
        factors: t.factors.map_values(
            |f: TensorRefView|
                TensorRefView {
                    tensor: f.tensor,
                    indices: f.indices.map_values(|x: IndexId| instance_id(exts, slots, t.sums, start, x)),
                },
        ),
    }
}

/// The terms of a source definition instantiated at a factor's slots; the
/// summed indices of all terms take consecutive fresh identities from `start`.
pub open spec fn instance(exts: Seq<Index>, slots: Seq<IndexId>, rhs: Seq<TermView>, start: int) -> Seq<
    TermView,
>
    decreases rhs.len(),
{
    if rhs.len() == 0 {
        Seq::empty()
    } else {
        instance(exts, slots, rhs.drop_last(), start).push(
            instance_term(exts, slots, rhs.last(), start + sum_count(rhs.drop_last())),
        )
    }
}

/// Instantiate a source definition at one of its factors, with fresh
/// identities for the summed indices of its terms.
fn instantiate_source(factor: &TensorRef, source: &TensorDef, fresh: &mut u64) -> (r: Result<
    Vec<Term>,
    VerifyError,
>)
    requires
        definition_scoped(source@),
    ensures
        factor.indices.len() != source.exts.len() ==> r == Err::<Vec<Term>, VerifyError>(
            VerifyError::SourceArityMismatch {
                tensor: source.base,
                expected: source.exts.len(),
                got: factor.indices.len(),
            },
        ),
        factor.indices.len() == source.exts.len() && fits(*old(fresh) as int, sum_count(source@.rhs) as int)
            ==> (r matches Ok(v) && terms_view(v@) == instance(
            source@.exts,
            factor@.indices,
            source@.rhs,
            *old(fresh) as int,
        ) && *final(fresh) == *old(fresh) + sum_count(source@.rhs)),
        factor.indices.len() == source.exts.len() && !fits(*old(fresh) as int, sum_count(source@.rhs) as int)
            ==> r == Err::<Vec<Term>, VerifyError>(VerifyError::ExhaustedIndexIds),
{
    if factor.indices.len() != source.exts.len() {
        return Err(
            VerifyError::SourceArityMismatch {
                tensor: source.base,
                expected: source.exts.len(),
                got: factor.indices.len(),
            },
        );
    }
    let ghost start = *fresh as int;
    let ghost rhs = source@.rhs;
    let ghost exts = source@.exts;
    let ghost slots = factor@.indices;
    let mut expansion: Vec<Term> = Vec::new();
    let mut j: usize = 0;
    while j < source.rhs.len()
        invariant
            j <= source.rhs.len(),
            rhs == source@.rhs,
            exts == source@.exts,
            slots == factor@.indices,
            slots.len() == exts.len(),
            definition_scoped(source@),
            start == *old(fresh) as int,
            *fresh == start + sum_count(rhs.take(j as int)),
            sum_count(rhs.take(j as int)) > 0 ==> start + sum_count(rhs.take(j as int)) <= id_space(),
            terms_view(expansion@) == instance(exts, slots, rhs.take(j as int), start),
        decreases source.rhs.len() - j,
    {
        let term = &source.rhs[j];
        assert(rhs[j as int] == term@);
        let ghost base = *fresh as int;
        proof {
            assert(rhs.take(j + 1).drop_last() =~= rhs.take(j as int));
            assert(rhs.take(j + 1).last() == rhs[j as int]);
            lemma_sum_count_prefix(rhs, j + 1);
        }
        let mut sums: Vec<Index> = Vec::new();
        let mut i: usize = 0;
        while i < term.sums.len()
            invariant
                j < source.rhs.len(),
                rhs == source@.rhs,
                slots == factor@.indices,
                slots.len() == exts.len(),
                exts == source@.exts,
                start == *old(fresh) as int,
                term@ == rhs[j as int],
                i <= term.sums.len(),
                *fresh == base + i,
                base == start + sum_count(rhs.take(j as int)),
                sum_count(rhs.take(j + 1)) == sum_count(rhs.take(j as int)) + term.sums.len(),
                sum_count(rhs.take(j + 1)) <= sum_count(rhs),
                i > 0 || sum_count(rhs.take(j as int)) > 0 ==> *fresh <= id_space(),
                sums@ =~= Seq::new(i as nat, |q: int| Index { id: IndexId((base + q) as u32), range: term@.sums[q].range }),
            decreases term.sums.len() - i,
        {
            let id = match fresh_index(fresh) {
                Ok(id) => id,
                Err(e) => {
                    assert(!fits(start, sum_count(rhs) as int));
                    return Err(e);
                },
            };
            sums.push(Index { id, range: term.sums[i].range });
            i = i + 1;
        }
        let mut factors: Vec<TensorRef> = Vec::new();
        let mut f: usize = 0;
        while f < term.factors.len()
            invariant
                j < source.rhs.len(),
                term@ == rhs[j as int],
                definition_scoped(source@),
                rhs == source@.rhs,
                exts == source@.exts,
                slots == factor@.indices,
                slots.len() == exts.len(),
                f <= term.factors.len(),
                sums@ =~= Seq::new(term.sums.len() as nat, |q: int| Index { id: IndexId((base + q) as u32), range: term@.sums[q].range }),
                factors@.len() == f,
                forall|g: int| 0 <= g < f ==> (#[trigger] factors@[g])@ == instance_term(exts, slots, term@, base).factors[g],
            decreases term.factors.len() - f,
        {
            let source_factor = &term.factors[f];
            assert(term@.factors[f as int] == source_factor@);
            let mut indices: Vec<IndexId> = Vec::new();
            let mut k: usize = 0;
            while k < source_factor.indices.len()
                invariant
                    j < source.rhs.len(),
                    term@ == rhs[j as int],
                    definition_scoped(source@),
                    rhs == source@.rhs,
                    exts == source@.exts,
                    slots == factor@.indices,
                    slots.len() == exts.len(),
                    f < term.factors.len(),
                    term@.factors[f as int] == source_factor@,
                    sums@ =~= Seq::new(term.sums.len() as nat, |q: int| Index { id: IndexId((base + q) as u32), range: term@.sums[q].range }),
                    k <= source_factor.indices.len(),
                    indices@ =~= source_factor@.indices.take(k as int).map_values(
                        |x: IndexId| instance_id(exts, slots, term@.sums, base, x),
                    ),
                decreases source_factor.indices.len() - k,
            {
                let x = source_factor.indices[k];
                proof {
                    assert(term_scoped(exts, rhs[j as int]));
                    assert(term@.factors[f as int].indices[k as int] == x);
                    lemma_last_slot(exts, x);
                    lemma_last_slot(term@.sums, x);
                }
                let renamed = match find_last(&source.exts, x) {
                    Some(p) => factor.indices[p],
                    None => match find_last(&term.sums, x) {
                        Some(q) => sums[q].id,
                        None => {
                            proof {
                                assert(false);
                            }
                            x
                        },
                    },
                };
                indices.push(renamed);
                proof {
                    assert(source_factor@.indices.take(k + 1) =~= source_factor@.indices.take(k as int).push(x));
                }
                k = k + 1;
            }
            assert(source_factor@.indices.take(source_factor.indices.len() as int) =~= source_factor@.indices);
            factors.push(TensorRef { tensor: source_factor.tensor, indices });
            f = f + 1;
        }
        let instantiated = Term { sums, coeff: term.coeff.clone(), factors };
        assert(instantiated@ =~= instance_term(exts, slots, term@, base));
        expansion.push(instantiated);
        proof {
            assert(terms_view(expansion@) =~= instance(exts, slots, rhs.take(j as int), start).push(
                instance_term(exts, slots, term@, base),
            ));
        }
        j = j + 1;
    }
    assert(rhs.take(source.rhs.len() as int) =~= rhs);
    Ok(expansion)
}

// ----------------------------------------------------------------------------
// Inlining a source into a term
// ----------------------------------------------------------------------------

/// What one factor expands to when `source` is inlined: the source's terms
/// instantiated at the factor where it names the source, and otherwise the
/// factor alone with unit coefficient.
pub open spec fn expansion(f: TensorRefView, source: TensorDefView, start: int) -> Seq<TermView> {
    if f.tensor == source.base {
        instance(source.exts, f.indices, source.rhs, start)
    } else {
        seq![TermView { sums: Seq::empty(), coeff: ratio_of_integer(1), factors: seq![f] }]
    }
}

/// The number of fresh identities that expanding one factor takes.
pub open spec fn expansion_ids(f: TensorRefView, source: TensorDefView) -> nat {
    if f.tensor == source.base {
        sum_count(source.rhs)
    } else {
        0
    }
}

/// The number of fresh identities that expanding some factors takes.
pub open spec fn factors_ids(factors: Seq<TensorRefView>, source: TensorDefView) -> nat
    decreases factors.len(),
{
    if factors.len() == 0 {
        0
    } else {
        factors_ids(factors.drop_last(), source) + expansion_ids(factors.last(), source)
    }
}

/// A prefix of the factors takes no more fresh identities than all of them.
pub proof fn lemma_factors_ids_prefix(factors: Seq<TensorRefView>, source: TensorDefView, i: int)
    requires
        0 <= i <= factors.len(),
    ensures
        factors_ids(factors.take(i), source) <= factors_ids(factors, source),
    decreases factors.len(),
{
    if i == factors.len() {
        assert(factors.take(i) =~= factors);
    } else {
        lemma_factors_ids_prefix(factors.drop_last(), source, i);
        assert(factors.drop_last().take(i) =~= factors.take(i));
    }
}

/// A partial product extended by one part of the next factor's expansion.
pub open spec fn extend(product: TermView, part: TermView) -> TermView {
    TermView {
        sums: product.sums + part.sums,
        coeff: ratio_product(product.coeff, part.coeff),
        factors: product.factors + part.factors,
    }
}

/// Every partial product extended by every part, products outermost.
pub open spec fn cross(products: Seq<TermView>, parts: Seq<TermView>) -> Seq<TermView>
    decreases products.len(),
{
    if products.len() == 0 {
        Seq::empty()
    } else {
        cross(products.drop_last(), parts) + parts.map_values(|part: TermView| extend(products.last(), part))
    }
}

/// The partial products of a term after expanding its first `n` factors.
pub open spec fn partial_products(term: TermView, source: TensorDefView, n: nat, start: int) -> Seq<TermView>
    decreases n,
{
    if n == 0 {
        seq![TermView { sums: term.sums, coeff: term.coeff, factors: Seq::empty() }]
    } else {
        cross(
            partial_products(term, source, (n - 1) as nat, start),
            expansion(
                term.factors[n - 1],
                source,
                start + factors_ids(term.factors.take(n - 1), source),
            ),
        )
    }
}

/// A term with `source` inlined into each factor that names it.
pub open spec fn inline_term(term: TermView, source: TensorDefView, start: int) -> Seq<TermView> {
    partial_products(term, source, term.factors.len(), start)
}

/// A partial product extended by one part.
fn extended(product: &Term, part: &Term) -> (r: Term)
    ensures
        r@ == extend(product@, part@),
        crate::coeff::numer_value(r@.coeff) * crate::coeff::denom_value(product@.coeff) * crate::coeff::denom_value(
            part@.coeff,
        ) == crate::coeff::numer_value(product@.coeff) * crate::coeff::numer_value(part@.coeff)
            * crate::coeff::denom_value(r@.coeff),
        r@.sums == product@.sums + part@.sums,
        r@.factors == product@.factors + part@.factors,
{
    let mut sums: Vec<Index> = Vec::new();
    let mut k: usize = 0;
    while k < product.sums.len()
        invariant
            k <= product.sums.len(),
            sums@ =~= product.sums@.take(k as int),
        decreases product.sums.len() - k,
    {
        sums.push(product.sums[k]);
        k = k + 1;
    }
    let mut k: usize = 0;
    while k < part.sums.len()
        invariant
            k <= part.sums.len(),
            sums@ =~= product.sums@ + part.sums@.take(k as int),
        decreases part.sums.len() - k,
    {
        sums.push(part.sums[k]);
        k = k + 1;
    }
    let mut factors: Vec<TensorRef> = Vec::new();
    let mut k: usize = 0;
    while k < product.factors.len()
        invariant
            k <= product.factors.len(),
            factors@.len() == k,
            forall|j: int| 0 <= j < k ==> (#[trigger] factors@[j])@ == product.factors@[j]@,
        decreases product.factors.len() - k,
    {
        factors.push(product.factors[k].clone());
        k = k + 1;
    }
    let mut k: usize = 0;
    while k < part.factors.len()
        invariant
            k <= part.factors.len(),
            factors@.len() == product.factors.len() + k,
            forall|j: int| 0 <= j < product.factors.len() ==> (#[trigger] factors@[j])@ == product.factors@[j]@,
            forall|j: int| 0 <= j < k ==> (#[trigger] factors@[product.factors.len() + j])@ == part.factors@[j]@,
        decreases part.factors.len() - k,
    {
        factors.push(part.factors[k].clone());
        k = k + 1;
    }
    assert(part.sums@.take(part.sums.len() as int) =~= part.sums@);
    assert forall|j: int| 0 <= j < factors.len() implies crate::repr::factors_view(factors@)[j] == (
    crate::repr::factors_view(product.factors@) + crate::repr::factors_view(part.factors@))[j] by {
        if j >= product.factors.len() {
            assert(factors@[product.factors.len() + (j - product.factors.len())]@ == part.factors@[j - product.factors.len()]@);
        }
    }
    assert(crate::repr::factors_view(factors@) =~= crate::repr::factors_view(product.factors@)
        + crate::repr::factors_view(part.factors@));
    let r = Term { sums, coeff: product.coeff.mul(&part.coeff), factors };
    assert(r@ =~= extend(product@, part@));
    r
}

/// Every partial product extended by every part.
fn cross_terms(products: &Vec<Term>, parts: &Vec<Term>) -> (r: Vec<Term>)
    ensures
        terms_view(r@) == cross(terms_view(products@), terms_view(parts@)),
{
    let ghost pv = terms_view(products@);
    let ghost qv = terms_view(parts@);
    let mut r: Vec<Term> = Vec::new();
    let mut a: usize = 0;
    while a < products.len()
        invariant
            a <= products.len(),
            pv == terms_view(products@),
            qv == terms_view(parts@),
            terms_view(r@) == cross(pv.take(a as int), qv),
        decreases products.len() - a,
    {
        let product = &products[a];
        assert(pv[a as int] == product@);
        let mut b: usize = 0;
        while b < parts.len()
            invariant
                a < products.len(),
                b <= parts.len(),
                pv == terms_view(products@),
                qv == terms_view(parts@),
                pv[a as int] == product@,
                terms_view(r@) == cross(pv.take(a as int), qv) + qv.take(b as int).map_values(
                    |part: TermView| extend(product@, part),
                ),
            decreases parts.len() - b,
        {
            let next = extended(product, &parts[b]);
            let ghost before = r@;
            r.push(next);
            proof {
                assert(qv[b as int] == parts@[b as int]@);
                assert(qv.take(b + 1).map_values(|part: TermView| extend(product@, part)) =~= qv.take(
                    b as int,
                ).map_values(|part: TermView| extend(product@, part)).push(extend(product@, qv[b as int])));
                assert(terms_view(r@) =~= terms_view(before).push(next@));
            }
            b = b + 1;
        }
        proof {
            assert(pv.take(a + 1).drop_last() =~= pv.take(a as int));
            assert(pv.take(a + 1).last() == product@);
            assert(qv.take(parts.len() as int) =~= qv);
        }
        a = a + 1;
    }
    assert(pv.take(products.len() as int) =~= pv);
    r
}

/// Inline `source` into one term: expand each factor in turn and multiply
/// out, taking fresh identities for the instantiated summed indices.
fn inline_source_in_term(term: &Term, source: &TensorDef, fresh: &mut u64) -> (r: Result<
    Vec<Term>,
    VerifyError,
>)
    requires
        definition_scoped(source@),
        forall|f: int|
            0 <= f < term@.factors.len() && (#[trigger] term@.factors[f]).tensor == source@.base
                ==> term@.factors[f].indices.len() == source@.exts.len(),
    ensures
        fits(*old(fresh) as int, factors_ids(term@.factors, source@) as int) ==> (r matches Ok(v)
            && terms_view(v@) == inline_term(term@, source@, *old(fresh) as int) && *final(fresh)
            == *old(fresh) + factors_ids(term@.factors, source@)),
        !fits(*old(fresh) as int, factors_ids(term@.factors, source@) as int) ==> r == Err::<
            Vec<Term>,
            VerifyError,
        >(VerifyError::ExhaustedIndexIds),
{
    let ghost start = *fresh as int;
    let ghost factors = term@.factors;
    let mut products: Vec<Term> = Vec::new();
    let sums = term.sums.clone();
    assert(sums@ =~= term.sums@);
    products.push(Term { sums, coeff: term.coeff.clone(), factors: Vec::new() });
    assert(products@[0]@ =~= TermView { sums: term@.sums, coeff: term@.coeff, factors: Seq::empty() });
    assert(terms_view(products@) =~= partial_products(term@, source@, 0, start));
    let mut i: usize = 0;
    while i < term.factors.len()
        invariant
            i <= term.factors.len(),
            factors == term@.factors,
            start == *old(fresh) as int,
            definition_scoped(source@),
            forall|f: int|
                0 <= f < term@.factors.len() && (#[trigger] term@.factors[f]).tensor == source@.base
                    ==> term@.factors[f].indices.len() == source@.exts.len(),
            *fresh == start + factors_ids(factors.take(i as int), source@),
            factors_ids(factors.take(i as int), source@) > 0 ==> start + factors_ids(factors.take(i as int), source@)
                <= id_space(),
            terms_view(products@) == partial_products(term@, source@, i as nat, start),
        decreases term.factors.len() - i,
    {
        let factor = &term.factors[i];
        assert(factors[i as int] == factor@);
        proof {
            assert(factors.take(i + 1).drop_last() =~= factors.take(i as int));
            assert(factors.take(i + 1).last() == factors[i as int]);
            lemma_factors_ids_prefix(factors, source@, i + 1);
        }
        let parts: Vec<Term> = if factor.tensor == source.base {
            match instantiate_source(factor, source, fresh) {
                Ok(parts) => parts,
                Err(e) => {
                    return Err(e);
                },
            }
        } else {
            let mut alone: Vec<TensorRef> = Vec::new();
            alone.push(factor.clone());
            let mut parts: Vec<Term> = Vec::new();
            parts.push(Term { sums: Vec::new(), coeff: Coefficient::from_integer(1), factors: alone });
            proof {
                assert(crate::repr::factors_view(alone@) =~= seq![factor@]);
                assert(parts@[0]@.sums =~= Seq::<Index>::empty());
            }
            parts
        };
        assert(terms_view(parts@) =~= expansion(factor@, source@, start + factors_ids(factors.take(i as int), source@)));
        products = cross_terms(&products, &parts);
        i = i + 1;
    }
    assert(factors.take(term.factors.len() as int) =~= factors);
    Ok(products)
}

// ----------------------------------------------------------------------------
// Inlining a source into definitions
// ----------------------------------------------------------------------------

/// The number of fresh identities that inlining into some terms takes.
pub open spec fn terms_ids(rhs: Seq<TermView>, source: TensorDefView) -> nat
    decreases rhs.len(),
{
    if rhs.len() == 0 {
        0
    } else {
        terms_ids(rhs.drop_last(), source) + factors_ids(rhs.last().factors, source)
    }
}

/// A prefix of the terms takes no more fresh identities than all of them.
pub proof fn lemma_terms_ids_prefix(rhs: Seq<TermView>, source: TensorDefView, i: int)
    requires
        0 <= i <= rhs.len(),
    ensures
        terms_ids(rhs.take(i), source) <= terms_ids(rhs, source),
    decreases rhs.len(),
{
    if i == rhs.len() {
        assert(rhs.take(i) =~= rhs);
    } else {
        lemma_terms_ids_prefix(rhs.drop_last(), source, i);
        assert(rhs.drop_last().take(i) =~= rhs.take(i));
    }
}

/// Terms with `source` inlined, in order, threading the fresh identities.
pub open spec fn inline_terms(rhs: Seq<TermView>, source: TensorDefView, start: int) -> Seq<TermView>
    decreases rhs.len(),
{
    if rhs.len() == 0 {
        Seq::empty()
    } else {
        inline_terms(rhs.drop_last(), source, start) + inline_term(
            rhs.last(),
            source,
            start + terms_ids(rhs.drop_last(), source),
        )
    }
}

/// A definition with `source` inlined into its terms.
pub open spec fn inline_definition(d: TensorDefView, source: TensorDefView, start: int) -> TensorDefView {
    TensorDefView { base: d.base, exts: d.exts, rhs: inline_terms(d.rhs, source, start) }
}

/// Every factor of `d` naming the source has the source's arity.
pub open spec fn arity_matches(d: TensorDefView, source: TensorDefView) -> bool {
    forall|t: int, f: int|
        0 <= t < d.rhs.len() && 0 <= f < d.rhs[t].factors.len() && (#[trigger] d.rhs[t].factors[f]).tensor
            == source.base ==> d.rhs[t].factors[f].indices.len() == source.exts.len()
}

/// Inline `source` into every term of `target`.
fn inline_source(target: &TensorDef, source: &TensorDef, fresh: &mut u64) -> (r: Result<
    TensorDef,
    VerifyError,
>)
    requires
        definition_scoped(source@),
        arity_matches(target@, source@),
    ensures
        fits(*old(fresh) as int, terms_ids(target@.rhs, source@) as int) ==> (r matches Ok(d) && d@
            == inline_definition(target@, source@, *old(fresh) as int) && *final(fresh) == *old(fresh)
            + terms_ids(target@.rhs, source@)),
        !fits(*old(fresh) as int, terms_ids(target@.rhs, source@) as int) ==> r == Err::<
            TensorDef,
            VerifyError,
        >(VerifyError::ExhaustedIndexIds),
{
    let ghost start = *fresh as int;
    let ghost rhs0 = target@.rhs;
    let mut rhs: Vec<Term> = Vec::new();
    let mut t: usize = 0;
    while t < target.rhs.len()
        invariant
            t <= target.rhs.len(),
            rhs0 == target@.rhs,
            start == *old(fresh) as int,
            definition_scoped(source@),
            arity_matches(target@, source@),
            *fresh == start + terms_ids(rhs0.take(t as int), source@),
            terms_ids(rhs0.take(t as int), source@) > 0 ==> start + terms_ids(rhs0.take(t as int), source@)
                <= id_space(),
            terms_view(rhs@) == inline_terms(rhs0.take(t as int), source@, start),
        decreases target.rhs.len() - t,
    {
        let term = &target.rhs[t];
        assert(rhs0[t as int] == term@);
        proof {
            assert(rhs0.take(t + 1).drop_last() =~= rhs0.take(t as int));
            assert(rhs0.take(t + 1).last() == rhs0[t as int]);
            lemma_terms_ids_prefix(rhs0, source@, t + 1);
            assert forall|f: int|
                0 <= f < term@.factors.len() && (#[trigger] term@.factors[f]).tensor == source@.base
                    implies term@.factors[f].indices.len() == source@.exts.len() by {
                assert(target@.rhs[t as int].factors[f] == term@.factors[f]);
            }
        }
        let expanded = match inline_source_in_term(term, source, fresh) {
            Ok(expanded) => expanded,
            Err(e) => {
                return Err(e);
            },
        };
        let ghost before = rhs@;
        let mut k: usize = 0;
        while k < expanded.len()
            invariant
                k <= expanded.len(),
                terms_view(rhs@) == terms_view(before) + terms_view(expanded@).take(k as int),
            decreases expanded.len() - k,
        {
            rhs.push(expanded[k].clone());
            proof {
                assert(terms_view(expanded@).take(k + 1) =~= terms_view(expanded@).take(k as int).push(expanded@[k as int]@));
                assert(terms_view(rhs@) =~= (terms_view(before) + terms_view(expanded@).take(k as int)).push(expanded@[k as int]@));
            }
            k = k + 1;
        }
        assert(terms_view(expanded@).take(expanded.len() as int) =~= terms_view(expanded@));
        t = t + 1;
    }
    assert(rhs0.take(target.rhs.len() as int) =~= rhs0);
    let exts = target.exts.clone();
    assert(exts@ =~= target@.exts);
    let d = TensorDef { base: target.base, exts, rhs };
    assert(d@ =~= inline_definition(target@, source@, start));
    Ok(d)
}

// ----------------------------------------------------------------------------
// What inlining keeps
// ----------------------------------------------------------------------------

/// A factor names a tensor of the table and has its rank as arity.
pub open spec fn factor_ranked(tensors: Seq<(TensorId, TensorInfoView)>, f: TensorRefView) -> bool {
    &&& lookup_tensor(tensors, f.tensor) is Some
    &&& lookup_tensor(tensors, f.tensor).unwrap().rank == f.indices.len()
}

/// Every factor of a term is ranked, and the term is scoped by `exts`.
pub open spec fn term_inlinable(tensors: Seq<(TensorId, TensorInfoView)>, exts: Seq<Index>, t: TermView) -> bool {
    &&& forall|f: int| 0 <= f < t.factors.len() ==> factor_ranked(tensors, #[trigger] t.factors[f])
    &&& term_scoped(exts, t)
}

/// A definition of a ranked tensor whose terms can be inlined into and from.
pub open spec fn definition_inlinable(tensors: Seq<(TensorId, TensorInfoView)>, d: TensorDefView) -> bool {
    &&& lookup_tensor(tensors, d.base) is Some
    &&& lookup_tensor(tensors, d.base).unwrap().rank == d.exts.len()
    &&& forall|t: int| 0 <= t < d.rhs.len() ==> term_inlinable(tensors, d.exts, #[trigger] d.rhs[t])
}

proof fn lemma_has_id_concat(a: Seq<Index>, b: Seq<Index>, id: IndexId)
    ensures
        crate::valid::has_id(a + b, id) <==> crate::valid::has_id(a, id) || crate::valid::has_id(b, id),
{
    if crate::valid::has_id(a, id) {
        let k = choose|k: int| 0 <= k < a.len() && (#[trigger] a[k]).id == id;
        assert((a + b)[k] == a[k]);
    }
    if crate::valid::has_id(b, id) {
        let k = choose|k: int| 0 <= k < b.len() && (#[trigger] b[k]).id == id;
        assert((a + b)[a.len() + k] == b[k]);
    }
    if crate::valid::has_id(a + b, id) {
        let k = choose|k: int| 0 <= k < (a + b).len() && (#[trigger] (a + b)[k]).id == id;
        if k < a.len() {
            assert(a[k].id == id);
        } else {
            assert(b[k - a.len()].id == id);
        }
    }
}

/// The terms of an instance, one for each source term.
proof fn lemma_instance_index(exts: Seq<Index>, slots: Seq<IndexId>, rhs: Seq<TermView>, start: int)
    ensures
        instance(exts, slots, rhs, start).len() == rhs.len(),
        forall|k: int|
            0 <= k < rhs.len() ==> #[trigger] instance(exts, slots, rhs, start)[k] == instance_term(
                exts,
                slots,
                rhs[k],
                start + sum_count(rhs.take(k)),
            ),
    decreases rhs.len(),
{
    if rhs.len() > 0 {
        lemma_instance_index(exts, slots, rhs.drop_last(), start);
        assert forall|k: int| 0 <= k < rhs.len() implies #[trigger] instance(exts, slots, rhs, start)[k]
            == instance_term(exts, slots, rhs[k], start + sum_count(rhs.take(k))) by {
            if k < rhs.len() - 1 {
                assert(rhs.drop_last().take(k) =~= rhs.take(k));
                assert(instance(exts, slots, rhs.drop_last(), start)[k] == instance_term(
                    exts,
                    slots,
                    rhs.drop_last()[k],
                    start + sum_count(rhs.drop_last().take(k)),
                ));
            } else {
                assert(rhs.take(k) =~= rhs.drop_last());
            }
        }
    }
}

/// An instantiated source term has ranked factors whose indices are the
/// factor's slots or its own fresh summed indices.
proof fn lemma_instance_term_inlinable(
    tensors: Seq<(TensorId, TensorInfoView)>,
    exts: Seq<Index>,
    slots: Seq<IndexId>,
    t: TermView,
    start: int,
)
    requires
        term_inlinable(tensors, exts, t),
        slots.len() == exts.len(),
    ensures
        ({
            let it = instance_term(exts, slots, t, start);
            &&& forall|f: int| 0 <= f < it.factors.len() ==> factor_ranked(tensors, #[trigger] it.factors[f])
            &&& forall|f: int, k: int|
                0 <= f < it.factors.len() && 0 <= k < it.factors[f].indices.len() ==> slots.contains(
                    #[trigger] it.factors[f].indices[k],
                ) || crate::valid::has_id(it.sums, it.factors[f].indices[k])
        }),
{
    let it = instance_term(exts, slots, t, start);
    assert forall|f: int| 0 <= f < it.factors.len() implies factor_ranked(tensors, #[trigger] it.factors[f]) by {
        assert(factor_ranked(tensors, t.factors[f]));
    }
    assert forall|f: int, k: int|
        0 <= f < it.factors.len() && 0 <= k < it.factors[f].indices.len() implies slots.contains(
            #[trigger] it.factors[f].indices[k],
        ) || crate::valid::has_id(it.sums, it.factors[f].indices[k]) by {
        let y = t.factors[f].indices[k];
        assert(it.factors[f].indices[k] == instance_id(exts, slots, t.sums, start, y));
        lemma_last_slot(exts, y);
        lemma_last_slot(t.sums, y);
        if last_slot(exts, y) >= 0 {
            assert(slots[last_slot(exts, y)] == it.factors[f].indices[k]);
        } else {
            let q = last_slot(t.sums, y);
            assert(crate::valid::has_id(exts, y) || crate::valid::has_id(t.sums, y));
            assert(it.sums[q].id == it.factors[f].indices[k]);
        }
    }
}

/// `t` extends some product by some part.
pub open spec fn extends_some(products: Seq<TermView>, parts: Seq<TermView>, t: TermView) -> bool {
    exists|a: int, b: int| 0 <= a < products.len() && 0 <= b < parts.len() && t == extend(products[a], parts[b])
}

/// Every entry of a cross product extends some product by some part.
proof fn lemma_cross_member(products: Seq<TermView>, parts: Seq<TermView>)
    ensures
        forall|k: int|
            0 <= k < cross(products, parts).len() ==> extends_some(
                products,
                parts,
                #[trigger] cross(products, parts)[k],
            ),
    decreases products.len(),
{
    if products.len() > 0 {
        let prev = products.drop_last();
        lemma_cross_member(prev, parts);
        let c = cross(products, parts);
        let head = cross(prev, parts);
        assert forall|k: int| 0 <= k < c.len() implies extends_some(products, parts, #[trigger] c[k]) by {
            if k < head.len() {
                assert(c[k] == head[k]);
                assert(extends_some(prev, parts, head[k]));
                let (a, b) = choose|a: int, b: int|
                    0 <= a < prev.len() && 0 <= b < parts.len() && head[k] == extend(prev[a], parts[b]);
                assert(prev[a] == products[a]);
                assert(c[k] == extend(products[a], parts[b]));
            } else {
                let b = k - head.len();
                let a = products.len() - 1;
                assert(c[k] == extend(products.last(), parts[b]));
                assert(products.last() == products[a]);
                assert(c[k] == extend(products[a], parts[b]));
            }
        }
    }
}

/// What every partial product of a term keeps while a source is inlined:
/// ranked factors, indices among the externals and its summed indices, and
/// the term's own summed indices.
pub open spec fn product_inlinable(
    tensors: Seq<(TensorId, TensorInfoView)>,
    exts: Seq<Index>,
    term: TermView,
    p: TermView,
) -> bool {
    &&& forall|f: int| 0 <= f < p.factors.len() ==> factor_ranked(tensors, #[trigger] p.factors[f])
    &&& forall|f: int, k: int|
        0 <= f < p.factors.len() && 0 <= k < p.factors[f].indices.len() ==> crate::valid::has_id(
            exts,
            #[trigger] p.factors[f].indices[k],
        ) || crate::valid::has_id(p.sums, p.factors[f].indices[k])
    &&& forall|id: IndexId| crate::valid::has_id(term.sums, id) ==> #[trigger] crate::valid::has_id(p.sums, id)
}

proof fn lemma_products_inlinable(
    tensors: Seq<(TensorId, TensorInfoView)>,
    exts: Seq<Index>,
    term: TermView,
    source: TensorDefView,
    n: nat,
    start: int,
)
    requires
        term_inlinable(tensors, exts, term),
        definition_inlinable(tensors, source),
        n <= term.factors.len(),
    ensures
        forall|k: int|
            0 <= k < partial_products(term, source, n, start).len() ==> product_inlinable(
                tensors,
                exts,
                term,
                #[trigger] partial_products(term, source, n, start)[k],
            ),
    decreases n,
{
    let pp = partial_products(term, source, n, start);
    if n == 0 {
        assert forall|k: int| 0 <= k < pp.len() implies product_inlinable(tensors, exts, term, #[trigger] pp[k]) by {
            assert(pp[k] == TermView { sums: term.sums, coeff: term.coeff, factors: Seq::empty() });
        }
    } else {
        let prev = partial_products(term, source, (n - 1) as nat, start);
        lemma_products_inlinable(tensors, exts, term, source, (n - 1) as nat, start);
        let factor = term.factors[n - 1];
        let s1 = start + factors_ids(term.factors.take(n - 1), source);
        let parts = expansion(factor, source, s1);
        assert(factor_ranked(tensors, factor));
        lemma_cross_member(prev, parts);
        if factor.tensor == source.base {
            lemma_instance_index(source.exts, factor.indices, source.rhs, s1);
        }
        assert forall|k: int| 0 <= k < pp.len() implies product_inlinable(tensors, exts, term, #[trigger] pp[k]) by {
            assert(pp[k] == cross(prev, parts)[k]);
            assert(extends_some(prev, parts, cross(prev, parts)[k]));
            let (a, b) = choose|a: int, b: int|
                0 <= a < prev.len() && 0 <= b < parts.len() && cross(prev, parts)[k] == extend(
                    prev[a],
                    parts[b],
                );
            let p = prev[a];
            let part = parts[b];
            assert(product_inlinable(tensors, exts, term, p));
            let e = extend(p, part);
            assert(pp[k] == e);
            assert forall|id: IndexId| crate::valid::has_id(term.sums, id) implies #[trigger] crate::valid::has_id(e.sums, id) by {
                lemma_has_id_concat(p.sums, part.sums, id);
            }
            if factor.tensor == source.base {
                let j = b;
                assert(part == instance_term(source.exts, factor.indices, source.rhs[j], s1 + sum_count(source.rhs.take(j))));
                assert(term_inlinable(tensors, source.exts, source.rhs[j]));
                lemma_instance_term_inlinable(tensors, source.exts, factor.indices, source.rhs[j], s1 + sum_count(source.rhs.take(j)));
            } else {
                assert(part == TermView { sums: Seq::empty(), coeff: ratio_of_integer(1), factors: seq![factor] });
            }
            assert forall|f: int| 0 <= f < e.factors.len() implies factor_ranked(tensors, #[trigger] e.factors[f]) by {
                if f < p.factors.len() {
                    assert(e.factors[f] == p.factors[f]);
                } else {
                    assert(e.factors[f] == part.factors[f - p.factors.len()]);
                }
            }
            assert forall|f: int, i: int|
                0 <= f < e.factors.len() && 0 <= i < e.factors[f].indices.len() implies crate::valid::has_id(
                    exts,
                    #[trigger] e.factors[f].indices[i],
                ) || crate::valid::has_id(e.sums, e.factors[f].indices[i]) by {
                let x = e.factors[f].indices[i];
                lemma_has_id_concat(p.sums, part.sums, x);
                if f < p.factors.len() {
                    assert(e.factors[f] == p.factors[f]);
                    assert(p.factors[f].indices[i] == x);
                } else {
                    let g = f - p.factors.len();
                    assert(e.factors[f] == part.factors[g]);
                    assert(part.factors[g].indices[i] == x);
                    if factor.tensor == source.base {
                        if factor.indices.contains(x) {
                            let q = choose|q: int| 0 <= q < factor.indices.len() && factor.indices[q] == x;
                            assert(term_scoped(exts, term));
                            assert(term.factors[n - 1].indices[q] == x);
                            assert(crate::valid::has_id(exts, x) || crate::valid::has_id(term.sums, x));
                        }
                    } else {
                        assert(part.factors[g] == factor);
                        assert(term.factors[n - 1].indices[i] == x);
                        assert(crate::valid::has_id(exts, x) || crate::valid::has_id(term.sums, x));
                    }
                }
            }
        }
    }
}

/// Every term of a term with a source inlined is inlinable.
proof fn lemma_inline_term_inlinable(
    tensors: Seq<(TensorId, TensorInfoView)>,
    exts: Seq<Index>,
    term: TermView,
    source: TensorDefView,
    start: int,
)
    requires
        term_inlinable(tensors, exts, term),
        definition_inlinable(tensors, source),
    ensures
        forall|k: int|
            0 <= k < inline_term(term, source, start).len() ==> term_inlinable(
                tensors,
                exts,
                #[trigger] inline_term(term, source, start)[k],
            ),
{
    lemma_products_inlinable(tensors, exts, term, source, term.factors.len(), start);
    let r = inline_term(term, source, start);
    assert forall|k: int| 0 <= k < r.len() implies term_inlinable(tensors, exts, #[trigger] r[k]) by {
        assert(product_inlinable(tensors, exts, term, r[k]));
    }
}

proof fn lemma_inline_terms_inlinable(
    tensors: Seq<(TensorId, TensorInfoView)>,
    exts: Seq<Index>,
    rhs: Seq<TermView>,
    source: TensorDefView,
    start: int,
)
    requires
        forall|t: int| 0 <= t < rhs.len() ==> term_inlinable(tensors, exts, #[trigger] rhs[t]),
        definition_inlinable(tensors, source),
    ensures
        forall|k: int|
            0 <= k < inline_terms(rhs, source, start).len() ==> term_inlinable(
                tensors,
                exts,
                #[trigger] inline_terms(rhs, source, start)[k],
            ),
    decreases rhs.len(),
{
    if rhs.len() > 0 {
        let head = inline_terms(rhs.drop_last(), source, start);
        let s1 = start + terms_ids(rhs.drop_last(), source);
        let tail = inline_term(rhs.last(), source, s1);
        lemma_inline_terms_inlinable(tensors, exts, rhs.drop_last(), source, start);
        assert(term_inlinable(tensors, exts, rhs[rhs.len() - 1]));
        lemma_inline_term_inlinable(tensors, exts, rhs.last(), source, s1);
        let r = inline_terms(rhs, source, start);
        assert forall|k: int| 0 <= k < r.len() implies term_inlinable(tensors, exts, #[trigger] r[k]) by {
            if k < head.len() {
                assert(r[k] == head[k]);
            } else {
                assert(r[k] == tail[k - head.len()]);
            }
        }
    }
}

/// Inlining keeps a definition inlinable.
pub proof fn lemma_inline_definition_inlinable(
    tensors: Seq<(TensorId, TensorInfoView)>,
    d: TensorDefView,
    source: TensorDefView,
    start: int,
)
    requires
        definition_inlinable(tensors, d),
        definition_inlinable(tensors, source),
    ensures
        definition_inlinable(tensors, inline_definition(d, source, start)),
{
    lemma_inline_terms_inlinable(tensors, d.exts, d.rhs, source, start);
}

// ----------------------------------------------------------------------------
// Inlining every intermediate
// ----------------------------------------------------------------------------

/// The position of the last definition that is not a protected output, or
/// -1 where every definition is one.
pub open spec fn last_intermediate(defs: Seq<TensorDefView>, outputs: Seq<TensorId>) -> int
    decreases defs.len(),
{
    if defs.len() == 0 {
        -1
    } else if !outputs.contains(defs.last().base) {
        defs.len() - 1
    } else {
        last_intermediate(defs.drop_last(), outputs)
    }
}

proof fn lemma_last_intermediate(defs: Seq<TensorDefView>, outputs: Seq<TensorId>)
    ensures
        -1 <= last_intermediate(defs, outputs) < defs.len(),
        last_intermediate(defs, outputs) >= 0 ==> !outputs.contains(defs[last_intermediate(defs, outputs)].base),
        forall|q: int|
            last_intermediate(defs, outputs) < q < defs.len() ==> outputs.contains((#[trigger] defs[q]).base),
    decreases defs.len(),
{
    if defs.len() > 0 {
        lemma_last_intermediate(defs.drop_last(), outputs);
        if outputs.contains(defs.last().base) {
            assert forall|q: int| last_intermediate(defs, outputs) < q < defs.len() implies outputs.contains(
                (#[trigger] defs[q]).base,
            ) by {
                if q < defs.len() - 1 {
                    assert(defs.drop_last()[q] == defs[q]);
                }
            }
        }
    }
}

/// The number of fresh identities that inlining into some definitions takes.
pub open spec fn round_ids(defs: Seq<TensorDefView>, source: TensorDefView) -> nat
    decreases defs.len(),
{
    if defs.len() == 0 {
        0
    } else {
        round_ids(defs.drop_last(), source) + terms_ids(defs.last().rhs, source)
    }
}

proof fn lemma_round_ids_prefix(defs: Seq<TensorDefView>, source: TensorDefView, k: int)
    requires
        0 <= k <= defs.len(),
    ensures
        round_ids(defs.take(k), source) <= round_ids(defs, source),
        k < defs.len() ==> round_ids(defs.take(k + 1), source) == round_ids(defs.take(k), source) + terms_ids(
            defs[k].rhs,
            source,
        ),
    decreases defs.len(),
{
    if k < defs.len() {
        assert(defs.take(k + 1).drop_last() =~= defs.take(k));
        assert(defs.take(k + 1).last() == defs[k]);
    }
    if k == defs.len() {
        assert(defs.take(k) =~= defs);
    } else {
        lemma_round_ids_prefix(defs.drop_last(), source, k);
        assert(defs.drop_last().take(k) =~= defs.take(k));
    }
}

/// Every definition with `source` inlined, in order, threading the fresh
/// identities.
pub open spec fn inline_round(defs: Seq<TensorDefView>, source: TensorDefView, start: int) -> Seq<
    TensorDefView,
> {
    Seq::new(
        defs.len(),
        |k: int| inline_definition(defs[k], source, start + round_ids(defs.take(k), source)),
    )
}

/// The definitions left when every intermediate has been inlined, last
/// first, into the definitions that remain, and the counter after it.
pub open spec fn inlined(defs: Seq<TensorDefView>, outputs: Seq<TensorId>, start: int) -> (Seq<
    TensorDefView,
>, int)
    decreases defs.len(),
{
    let p = last_intermediate(defs, outputs);
    if 0 <= p < defs.len() {
        let source = defs[p];
        let rest = defs.remove(p);
        inlined(inline_round(rest, source, start), outputs, start + round_ids(rest, source))
    } else {
        (defs, start)
    }
}

/// Inlining only ever advances the counter.
proof fn lemma_inlined_advances(defs: Seq<TensorDefView>, outputs: Seq<TensorId>, start: int)
    ensures
        inlined(defs, outputs, start).1 >= start,
    decreases defs.len(),
{
    let p = last_intermediate(defs, outputs);
    if 0 <= p < defs.len() {
        let rest = defs.remove(p);
        lemma_inlined_advances(inline_round(rest, defs[p], start), outputs, start + round_ids(rest, defs[p]));
    }
}

/// Whether some definition defines `tensor`.
pub open spec fn has_definition(defs: Seq<TensorDefView>, tensor: TensorId) -> bool {
    exists|q: int| 0 <= q < defs.len() && (#[trigger] defs[q]).base == tensor
}

/// No two definitions define the same tensor.
pub open spec fn bases_distinct(defs: Seq<TensorDefView>) -> bool {
    forall|a: int, b: int|
        0 <= a < defs.len() && 0 <= b < defs.len() && a != b ==> (#[trigger] defs[a]).base != (
        #[trigger] defs[b]).base
}

/// `out` defines only protected outputs, every protected output that `defs`
/// defines, and no tensor twice where `defs` does not.
pub open spec fn keeps_outputs(defs: Seq<TensorDefView>, out: Seq<TensorDefView>, outputs: Seq<TensorId>) -> bool {
    &&& forall|p: int| 0 <= p < out.len() ==> outputs.contains((#[trigger] out[p]).base)
    &&& forall|o: TensorId| outputs.contains(o) && has_definition(defs, o) ==> #[trigger] has_definition(out, o)
    &&& bases_distinct(defs) ==> bases_distinct(out)
}

/// Inlining keeps definitions inlinable and keeps the protected outputs.
pub proof fn lemma_inlined_keeps(
    tensors: Seq<(TensorId, TensorInfoView)>,
    defs: Seq<TensorDefView>,
    outputs: Seq<TensorId>,
    start: int,
)
    requires
        forall|p: int| 0 <= p < defs.len() ==> definition_inlinable(tensors, #[trigger] defs[p]),
    ensures
        forall|p: int|
            0 <= p < inlined(defs, outputs, start).0.len() ==> definition_inlinable(
                tensors,
                #[trigger] inlined(defs, outputs, start).0[p],
            ),
        keeps_outputs(defs, inlined(defs, outputs, start).0, outputs),
    decreases defs.len(),
{
    lemma_last_intermediate(defs, outputs);
    let p = last_intermediate(defs, outputs);
    if 0 <= p < defs.len() {
        let source = defs[p];
        let rest = defs.remove(p);
        let s1 = start + round_ids(rest, source);
        let next = inline_round(rest, source, start);
        assert forall|q: int| 0 <= q < next.len() implies definition_inlinable(tensors, #[trigger] next[q]) by {
            if q < p {
                assert(rest[q] == defs[q]);
            } else {
                assert(rest[q] == defs[q + 1]);
            }
            lemma_inline_definition_inlinable(tensors, rest[q], source, start + round_ids(rest.take(q), source));
        }
        lemma_inlined_keeps(tensors, next, outputs, s1);
        let out = inlined(next, outputs, s1).0;
        assert(inlined(defs, outputs, start) == inlined(next, outputs, s1));
        assert forall|o: TensorId| outputs.contains(o) && has_definition(defs, o) implies #[trigger] has_definition(out, o) by {
            let q = choose|q: int| 0 <= q < defs.len() && (#[trigger] defs[q]).base == o;
            assert(q != p);
            if q < p {
                assert(next[q].base == rest[q].base && rest[q] == defs[q]);
                assert(has_definition(next, o));
            } else {
                assert(next[q - 1].base == rest[q - 1].base && rest[q - 1] == defs[q]);
                assert(has_definition(next, o));
            }
        }
        if bases_distinct(defs) {
            assert forall|a: int, b: int|
                0 <= a < next.len() && 0 <= b < next.len() && a != b implies (#[trigger] next[a]).base
                    != (#[trigger] next[b]).base by {
                let oa = if a < p { a } else { a + 1 };
                let ob = if b < p { b } else { b + 1 };
                assert(next[a].base == defs[oa].base);
                assert(next[b].base == defs[ob].base);
            }
            assert(bases_distinct(next));
        }
    } else {
        assert(inlined(defs, outputs, start) == (defs, start));
        assert forall|q: int| 0 <= q < defs.len() implies outputs.contains((#[trigger] defs[q]).base) by {}
    }
}

/// Whether `ids` lists `x`.
fn lists_tensor(ids: &[TensorId], x: TensorId) -> (r: bool)
    ensures
        r == ids@.contains(x),
{
    let mut k: usize = 0;
    while k < ids.len()
        invariant
            k <= ids.len(),
            forall|j: int| 0 <= j < k ==> ids@[j] != x,
        decreases ids.len() - k,
    {
        if ids[k] == x {
            assert(ids@[k as int] == x);
            return true;
        }
        k = k + 1;
    }
    false
}

/// Inline every definition that is not a protected output, last first, into
/// the definitions that remain.
fn inline_intermediates(computation: &Computation, outputs: &[TensorId], fresh: &mut u64) -> (r: Result<
    Vec<TensorDef>,
    VerifyError,
>)
    requires
        *old(fresh) <= id_space(),
        forall|p: int|
            0 <= p < computation@.definitions.len() ==> definition_inlinable(
                computation@.tensors,
                #[trigger] computation@.definitions[p],
            ),
    ensures
        inlined(computation@.definitions, outputs@, *old(fresh) as int).1 <= id_space() ==> (r matches Ok(v)
            && definitions_view(v@) == inlined(computation@.definitions, outputs@, *old(fresh) as int).0
            && *final(fresh) == inlined(computation@.definitions, outputs@, *old(fresh) as int).1),
        inlined(computation@.definitions, outputs@, *old(fresh) as int).1 > id_space() ==> r == Err::<
            Vec<TensorDef>,
            VerifyError,
        >(VerifyError::ExhaustedIndexIds),
{
    let ghost tensors = computation@.tensors;
    let ghost goal = inlined(computation@.definitions, outputs@, *fresh as int);
    let mut definitions: Vec<TensorDef> = Vec::new();
    let mut k: usize = 0;
    while k < computation.definitions.len()
        invariant
            k <= computation.definitions.len(),
            definitions_view(definitions@) =~= computation@.definitions.take(k as int),
        decreases computation.definitions.len() - k,
    {
        definitions.push(computation.definitions[k].clone());
        proof {
            assert(computation@.definitions[k as int] == computation.definitions@[k as int]@);
            assert(computation@.definitions.take(k + 1) =~= computation@.definitions.take(k as int).push(
                computation@.definitions[k as int],
            ));
        }
        k = k + 1;
    }
    assert(computation@.definitions.take(computation.definitions.len() as int) =~= computation@.definitions);
    loop
        invariant
            inlined(definitions_view(definitions@), outputs@, *fresh as int) == goal,
            goal == inlined(computation@.definitions, outputs@, *old(fresh) as int),
            *fresh <= id_space(),
            tensors == computation@.tensors,
            forall|p: int|
                0 <= p < definitions.len() ==> definition_inlinable(
                    tensors,
                    #[trigger] definitions_view(definitions@)[p],
                ),
        ensures
            goal == (definitions_view(definitions@), *fresh as int),
        decreases definitions.len(),
    {
        let ghost current = definitions_view(definitions@);
        proof {
            lemma_last_intermediate(current, outputs@);
        }
        let mut found: Option<usize> = None;
        let mut k: usize = definitions.len();
        while k > 0
            invariant_except_break
                found is None,
            invariant
                k <= definitions.len(),
                current == definitions_view(definitions@),
                -1 <= last_intermediate(current, outputs@) < current.len(),
                last_intermediate(current, outputs@) >= 0 ==> !outputs@.contains(
                    current[last_intermediate(current, outputs@)].base,
                ),
                forall|q: int|
                    last_intermediate(current, outputs@) < q < current.len() ==> outputs@.contains(
                        (#[trigger] current[q]).base,
                    ),
                forall|q: int| k <= q < current.len() ==> outputs@.contains((#[trigger] current[q]).base),
            ensures
                found is None ==> forall|q: int| 0 <= q < current.len() ==> outputs@.contains(
                    (#[trigger] current[q]).base,
                ),
                found matches Some(p) ==> p == last_intermediate(current, outputs@),
            decreases k,
        {
            assert(current[k - 1] == definitions@[k - 1]@);
            let listed = lists_tensor(outputs, definitions[k - 1].base);
            if !listed {
                proof {
                    let li = last_intermediate(current, outputs@);
                    if li > k - 1 {
                        assert(outputs@.contains(current[li].base));
                    } else if li < k - 1 {
                        assert(outputs@.contains(current[k - 1].base));
                    }
                }
                found = Some(k - 1);
                break;
            }
            k = k - 1;
        }
        let position = match found {
            Some(position) => position,
            None => {
                proof {
                    let li = last_intermediate(current, outputs@);
                    if li >= 0 {
                        assert(outputs@.contains(current[li].base));
                    }
                    assert(inlined(current, outputs@, *fresh as int) == (current, *fresh as int));
                }
                break;
            },
        };
        let ghost start = *fresh as int;
        let source = definitions.remove(position);
        let ghost rest = definitions_view(definitions@);
        proof {
            assert(rest =~= current.remove(position as int));
            assert(source@ == current[position as int]);
            assert(goal == inlined(inline_round(rest, source@, start), outputs@, start + round_ids(rest, source@)));
            assert(definition_inlinable(tensors, current[position as int]));
            assert forall|q: int| 0 <= q < rest.len() implies definition_inlinable(tensors, #[trigger] rest[q]) by {
                if q < position {
                    assert(rest[q] == current[q]);
                } else {
                    assert(rest[q] == current[q + 1]);
                }
            }
        }
        let mut k: usize = 0;
        while k < definitions.len()
            invariant
                k <= definitions.len() == rest.len(),
                tensors == computation@.tensors,
                source@ == current[position as int],
                definition_inlinable(tensors, source@),
                forall|q: int| 0 <= q < rest.len() ==> definition_inlinable(tensors, #[trigger] rest[q]),
                goal == inlined(inline_round(rest, source@, start), outputs@, start + round_ids(rest, source@)),
                goal == inlined(computation@.definitions, outputs@, *old(fresh) as int),
                start <= id_space(),
                forall|q: int| 0 <= q < k ==> (#[trigger] definitions@[q])@ == inline_round(rest, source@, start)[q],
                forall|q: int| k <= q < rest.len() ==> (#[trigger] definitions@[q])@ == rest[q],
                *fresh == start + round_ids(rest.take(k as int), source@),
                *fresh <= id_space(),
            decreases definitions.len() - k,
        {
            proof {
                lemma_round_ids_prefix(rest, source@, k as int);
                lemma_round_ids_prefix(rest, source@, k + 1);
                let target = rest[k as int];
                assert(definitions@[k as int]@ == target);
                assert forall|t: int, f: int|
                    0 <= t < target.rhs.len() && 0 <= f < target.rhs[t].factors.len() && (
                    #[trigger] target.rhs[t].factors[f]).tensor == source@.base implies target.rhs[t].factors[f].indices.len()
                        == source@.exts.len() by {
                    assert(term_inlinable(tensors, target.exts, target.rhs[t]));
                    assert(factor_ranked(tensors, target.rhs[t].factors[f]));
                }
            }
            let next = match inline_source(&definitions[k], &source, fresh) {
                Ok(next) => next,
                Err(e) => {
                    proof {
                        lemma_inlined_advances(inline_round(rest, source@, start), outputs@, start + round_ids(rest, source@));
                    }
                    return Err(e);
                },
            };
            proof {
                lemma_inline_definition_inlinable(tensors, rest[k as int], source@, start + round_ids(rest.take(k as int), source@));
            }
            definitions.set(k, next);
            k = k + 1;
        }
        proof {
            assert(rest.take(rest.len() as int) =~= rest);
            assert(definitions_view(definitions@) =~= inline_round(rest, source@, start));
            assert forall|p: int| 0 <= p < definitions.len() implies definition_inlinable(
                tensors,
                #[trigger] definitions_view(definitions@)[p],
            ) by {
                lemma_inline_definition_inlinable(tensors, rest[p], source@, start + round_ids(rest.take(p), source@));
            }
        }
    }
    Ok(definitions)
}

// ----------------------------------------------------------------------------
// Equivalence
// ----------------------------------------------------------------------------

/// A valid computation can be inlined into and from.
proof fn lemma_valid_inlinable(c: ComputationView)
    requires
        crate::valid::computation_valid(c),
    ensures
        forall|p: int| 0 <= p < c.definitions.len() ==> definition_inlinable(c.tensors, #[trigger] c.definitions[p]),
{
    assert forall|p: int| 0 <= p < c.definitions.len() implies definition_inlinable(c.tensors, #[trigger] c.definitions[p]) by {
        let d = c.definitions[p];
        assert(crate::valid::definition_valid(c, d));
        assert forall|t: int| 0 <= t < d.rhs.len() implies term_inlinable(c.tensors, d.exts, #[trigger] d.rhs[t]) by {
            assert(crate::valid::term_valid(c, d.exts, d.rhs[t]));
            assert forall|f: int| 0 <= f < d.rhs[t].factors.len() implies factor_ranked(c.tensors, #[trigger] d.rhs[t].factors[f]) by {
                assert(crate::valid::factor_valid(c, d.exts, d.rhs[t].sums, d.rhs[t].factors[f]));
            }
            assert forall|f: int, k: int|
                0 <= f < d.rhs[t].factors.len() && 0 <= k < d.rhs[t].factors[f].indices.len() implies crate::valid::has_id(
                    d.exts,
                    #[trigger] d.rhs[t].factors[f].indices[k],
                ) || crate::valid::has_id(d.rhs[t].sums, d.rhs[t].factors[f].indices[k]) by {
                assert(crate::valid::factor_valid(c, d.exts, d.rhs[t].sums, d.rhs[t].factors[f]));
            }
        }
    }
}

/// Inlinable definitions name only tensors of the table.
proof fn lemma_named_known(tensors: Seq<(TensorId, TensorInfoView)>, defs: Seq<TensorDefView>)
    requires
        forall|p: int| 0 <= p < defs.len() ==> definition_inlinable(tensors, #[trigger] defs[p]),
    ensures
        forall|t: TensorId| names_tensor(defs, t) ==> #[trigger] lookup_tensor(tensors, t) is Some,
{
    assert forall|t: TensorId| names_tensor(defs, t) implies #[trigger] lookup_tensor(tensors, t) is Some by {
        let (p, u, f) = choose|p: int, u: int, f: int|
            0 <= p < defs.len() && 0 <= u < defs[p].rhs.len() && 0 <= f < defs[p].rhs[u].factors.len()
                && #[trigger] defs[p].rhs[u].factors[f].tensor == t;
        assert(definition_inlinable(tensors, defs[p]));
        assert(term_inlinable(tensors, defs[p].exts, defs[p].rhs[u]));
        assert(factor_ranked(tensors, defs[p].rhs[u].factors[f]));
    }
}

/// The definition of `tensor` among `defs`.
pub open spec fn definition_of(defs: Seq<TensorDefView>, tensor: TensorId) -> TensorDefView {
    defs[choose|q: int| 0 <= q < defs.len() && (#[trigger] defs[q]).base == tensor]
}

/// The position of the first definition of `tensor`.
fn find_definition(defs: &Vec<TensorDef>, tensor: TensorId) -> (r: Option<usize>)
    ensures
        match r {
            Some(p) => p < defs.len() && defs@[p as int]@.base == tensor,
            None => !has_definition(definitions_view(defs@), tensor),
        },
{
    let mut k: usize = 0;
    while k < defs.len()
        invariant
            k <= defs.len(),
            forall|q: int| 0 <= q < k ==> (#[trigger] defs@[q])@.base != tensor,
        decreases defs.len() - k,
    {
        if defs[k].base == tensor {
            return Some(k);
        }
        k = k + 1;
    }
    proof {
        if has_definition(definitions_view(defs@), tensor) {
            let q = choose|q: int| 0 <= q < defs.len() && (#[trigger] definitions_view(defs@)[q]).base == tensor;
            assert(defs@[q]@.base == tensor);
        }
    }
    None
}

/// With distinct tensors, the definition found is the definition of `tensor`.
proof fn lemma_definition_of(defs: Seq<TensorDefView>, tensor: TensorId, p: int)
    requires
        bases_distinct(defs),
        0 <= p < defs.len(),
        defs[p].base == tensor,
    ensures
        definition_of(defs, tensor) == defs[p],
{
    let q = choose|q: int| 0 <= q < defs.len() && (#[trigger] defs[q]).base == tensor;
    assert(defs[q].base == tensor);
}

/// The error that comparing the interfaces of `lhs` and `rhs` reports.
pub open spec fn interface_error(lhs: TensorDefView, rhs: TensorDefView, e: VerifyError) -> bool {
    if lhs.exts.len() != rhs.exts.len() {
        e == VerifyError::OutputArityMismatch {
            tensor: lhs.base,
            lhs: lhs.exts.len() as usize,
            rhs: rhs.exts.len() as usize,
        }
    } else {
        e matches VerifyError::OutputRangeMismatch { tensor, position, lhs: lr, rhs: rr } && tensor
            == lhs.base && first_range_mismatch(lhs.exts, rhs.exts, position as int) && lr
            == lhs.exts[position as int].range && rr == rhs.exts[position as int].range
    }
}

/// Two definitions of one output have the same arity and ranges.
pub open spec fn interfaces_agree(lhs: TensorDefView, rhs: TensorDefView) -> bool {
    &&& lhs.exts.len() == rhs.exts.len()
    &&& forall|q: int| 0 <= q < lhs.exts.len() ==> (#[trigger] lhs.exts[q]).range == rhs.exts[q].range
}

/// The terms whose canonical form is empty exactly when two definitions of
/// one output agree: the left terms and the negated right terms.
pub open spec fn difference(lhs: TensorDefView, rhs: TensorDefView) -> Seq<TermView> {
    lhs.rhs + rhs.rhs.map_values(
        |t: TermView| TermView { sums: t.sums, coeff: ratio_negation(t.coeff), factors: t.factors },
    )
}

/// `cs` gives each term of the difference of output `o` an outcome that
/// canonicalization allows in context `c`.
pub open spec fn canonical_difference(
    c: ComputationView,
    lhs_defs: Seq<TensorDefView>,
    rhs_defs: Seq<TensorDefView>,
    o: TensorId,
    cs: Seq<Option<TermView>>,
) -> bool {
    canonical_choices(
        c,
        definition_of(lhs_defs, o).exts,
        difference(definition_of(lhs_defs, o), definition_of(rhs_defs, o)),
        cs,
    )
}

/// Under some outcome of canonicalization allowed for each term, the
/// difference of output `o` merges into coefficients that all vanish.
pub open spec fn difference_cancels(
    c: ComputationView,
    lhs_defs: Seq<TensorDefView>,
    rhs_defs: Seq<TensorDefView>,
    o: TensorId,
) -> bool {
    exists|cs: Seq<Option<TermView>>|
        #[trigger] canonical_difference(c, lhs_defs, rhs_defs, o, cs) && drop_zeros(merge(cs)).len() == 0
}

/// An output that the inlined definitions of both sides disagree on in
/// interface.
pub open spec fn interface_conflict(
    outputs: Seq<TensorId>,
    lhs_defs: Seq<TensorDefView>,
    rhs_defs: Seq<TensorDefView>,
    o: TensorId,
) -> bool {
    outputs.contains(o) && !interfaces_agree(definition_of(lhs_defs, o), definition_of(rhs_defs, o))
}

/// Why canonicalizing the difference of output `o` fails with `e`: a term
/// of it is invalid in the output's scope, or (for exhausted identities) too
/// few identities lie outside the output's externals for its summed indices.
pub open spec fn difference_fails(
    c: ComputationView,
    lhs_defs: Seq<TensorDefView>,
    rhs_defs: Seq<TensorDefView>,
    o: TensorId,
    e: CanonError,
) -> bool {
    let exts = definition_of(lhs_defs, o).exts;
    let terms = difference(definition_of(lhs_defs, o), definition_of(rhs_defs, o));
    exists|k: int|
        0 <= k < terms.len() && if e is ExhaustedIndexIds {
            crate::canon::ids_short(exts, (#[trigger] terms[k]).sums.len() as int)
        } else {
            !crate::valid::term_context_valid(c, exts, #[trigger] terms[k])
        }
}

/// What comparing two valid states answers.
///
/// The protected outputs must be the same sets; every intermediate of each
/// side is inlined with fresh identities counted from one past the largest
/// identity either side mentions; the inlined outputs must have the same
/// interfaces (the smallest output that does not is reported) and the
/// tensors they name must be described alike (the smallest one that is not
/// is reported). Then the answer is whether every output's difference
/// canonicalizes to nothing: its terms, each canonicalized or dropped as
/// canonicalization allows, merge into coefficients that all vanish.
pub open spec fn states_verdict(lhs: StateView, rhs: StateView, r: Result<bool, VerifyError>) -> bool {
    let lo = lhs.protected_outputs;
    let ro = rhs.protected_outputs;
    if exists|t: TensorId| lo.contains(t) != ro.contains(t) {
        r matches Err(VerifyError::ProtectedOutputsMismatch { lhs: l, rhs: rr }) && tensors_ascending(l@)
            && tensors_ascending(rr@) && (forall|t: TensorId| l@.contains(t) <==> lo.contains(t)) && (forall|
            t: TensorId,
        | rr@.contains(t) <==> ro.contains(t))
    } else {
        let start = fresh_bound(lhs.computation, rhs.computation);
        let (ld, lend) = inlined(lhs.computation.definitions, lo, start);
        let (rd, rend) = inlined(rhs.computation.definitions, ro, start);
        if lend > id_space() || rend > id_space() {
            r == Err::<bool, VerifyError>(VerifyError::ExhaustedIndexIds)
        } else if exists|o: TensorId| interface_conflict(lo, ld, rd, o) {
            r matches Err(e) && exists|o: TensorId|
                #[trigger] interface_conflict(lo, ld, rd, o) && interface_error(
                    definition_of(ld, o),
                    definition_of(rd, o),
                    e,
                ) && forall|o2: TensorId| #[trigger] interface_conflict(lo, ld, rd, o2) ==> o.0 <= o2.0
        } else if exists|t: TensorId| metadata_conflict(lhs.computation, rhs.computation, ld, rd, t) {
            r matches Err(VerifyError::TensorMetadataMismatch { tensor }) && metadata_conflict(
                lhs.computation,
                rhs.computation,
                ld,
                rd,
                tensor,
            ) && forall|t: TensorId| #[trigger] metadata_conflict(lhs.computation, rhs.computation, ld, rd, t) ==> tensor.0 <= t.0
        } else {
            &&& (r is Ok || r matches Err(VerifyError::Canonicalization(_)))
            &&& r matches Err(VerifyError::Canonicalization(ce)) ==> exists|o: TensorId, c: ComputationView|
                lo.contains(o) && is_merged_context(lhs.computation, rhs.computation, ld, rd, c)
                    && #[trigger] difference_fails(c, ld, rd, o, ce)
            &&& r == Ok::<bool, VerifyError>(true) ==> forall|o: TensorId|
                lo.contains(o) ==> exists|c: ComputationView, cs: Seq<Option<TermView>>|
                    is_merged_context(lhs.computation, rhs.computation, ld, rd, c) && #[trigger] canonical_difference(
                        c,
                        ld,
                        rd,
                        o,
                        cs,
                    ) && drop_zeros(merge(cs)).len() == 0
            &&& r == Ok::<bool, VerifyError>(false) ==> exists|o: TensorId, c: ComputationView, cs: Seq<Option<TermView>>|
                lo.contains(o) && is_merged_context(lhs.computation, rhs.computation, ld, rd, c)
                    && #[trigger] canonical_difference(c, ld, rd, o, cs) && drop_zeros(merge(cs)).len() > 0
        }
    }
}

/// Whether two lists hold the same tensors.
fn same_members(a: &Vec<TensorId>, b: &Vec<TensorId>) -> (r: bool)
    ensures
        r == (forall|t: TensorId| a@.contains(t) <==> b@.contains(t)),
{
    let mut k: usize = 0;
    while k < a.len()
        invariant
            k <= a.len(),
            forall|j: int| 0 <= j < k ==> b@.contains(#[trigger] a@[j]),
        decreases a.len() - k,
    {
        if !holds_tensor(b, a[k]) {
            assert(a@.contains(a@[k as int]));
            return false;
        }
        k = k + 1;
    }
    let mut k: usize = 0;
    while k < b.len()
        invariant
            k <= b.len(),
            forall|j: int| 0 <= j < a.len() ==> b@.contains(#[trigger] a@[j]),
            forall|j: int| 0 <= j < k ==> a@.contains(#[trigger] b@[j]),
        decreases b.len() - k,
    {
        if !holds_tensor(a, b[k]) {
            assert(b@.contains(b@[k as int]));
            return false;
        }
        k = k + 1;
    }
    proof {
        assert forall|t: TensorId| a@.contains(t) <==> b@.contains(t) by {
            if a@.contains(t) {
                let j = choose|j: int| 0 <= j < a.len() && a@[j] == t;
                assert(b@.contains(a@[j]));
            }
            if b@.contains(t) {
                let j = choose|j: int| 0 <= j < b.len() && b@[j] == t;
                assert(a@.contains(b@[j]));
            }
        }
    }
    true
}

/// The tensors of a list in ascending order, each once.
fn ascending_tensors(ids: &[TensorId]) -> (r: Vec<TensorId>)
    ensures
        tensors_ascending(r@),
        forall|t: TensorId| r@.contains(t) <==> ids@.contains(t),
{
    let mut r: Vec<TensorId> = Vec::new();
    let mut k: usize = 0;
    while k < ids.len()
        invariant
            k <= ids.len(),
            tensors_ascending(r@),
            forall|t: TensorId| r@.contains(t) <==> exists|j: int| 0 <= j < k && ids@[j] == t,
        decreases ids.len() - k,
    {
        add_tensor(&mut r, ids[k]);
        proof {
            assert forall|t: TensorId| r@.contains(t) <==> exists|j: int| 0 <= j < k + 1 && ids@[j] == t by {
                if t == ids@[k as int] {
                    assert(ids@[k as int] == t);
                }
            }
        }
        k = k + 1;
    }
    r
}

/// Negate the coefficient of each term.
fn negated_terms(terms: &Vec<Term>) -> (r: Vec<Term>)
    ensures
        terms_view(r@) == terms_view(terms@).map_values(
            |t: TermView| TermView { sums: t.sums, coeff: ratio_negation(t.coeff), factors: t.factors },
        ),
{
    let mut r: Vec<Term> = Vec::new();
    let mut k: usize = 0;
    while k < terms.len()
        invariant
            k <= terms.len(),
            r@.len() == k,
            forall|j: int|
                0 <= j < k ==> (#[trigger] r@[j])@ == (TermView {
                    sums: terms@[j]@.sums,
                    coeff: ratio_negation(terms@[j]@.coeff),
                    factors: terms@[j]@.factors,
                }),
        decreases terms.len() - k,
    {
        let term = &terms[k];
        let mut negated = term.clone();
        negated.coeff = term.coeff.neg();
        r.push(negated);
        k = k + 1;
    }
    assert(terms_view(r@) =~= terms_view(terms@).map_values(
        |t: TermView| TermView { sums: t.sums, coeff: ratio_negation(t.coeff), factors: t.factors },
    ));
    r
}

/// `after` describes every tensor that `before` describes alike, keeps the
/// definitions of `before` at their positions with the same bases and
/// interfaces, and adds only definitions of tensors that `before` does not
/// describe.
pub open spec fn extends_interfaces(before: ComputationView, after: ComputationView) -> bool {
    &&& forall|t: TensorId|
        lookup_tensor(before.tensors, t) is Some ==> #[trigger] lookup_tensor(after.tensors, t) == lookup_tensor(
            before.tensors,
            t,
        )
    &&& after.definitions.len() >= before.definitions.len()
    &&& forall|q: int|
        0 <= q < before.definitions.len() ==> (#[trigger] after.definitions[q]).base == before.definitions[q].base
            && interfaces_agree(before.definitions[q], after.definitions[q])
    &&& forall|q: int|
        before.definitions.len() <= q < after.definitions.len() ==> lookup_tensor(
            before.tensors,
            (#[trigger] after.definitions[q]).base,
        ) is None
}

/// Every definition left by inlining has the base and externals of one of
/// the definitions it started from.
proof fn lemma_inlined_exts(defs: Seq<TensorDefView>, outputs: Seq<TensorId>, start: int)
    ensures
        forall|q: int|
            0 <= q < inlined(defs, outputs, start).0.len() ==> exists|q0: int|
                0 <= q0 < defs.len() && defs[q0].base == (#[trigger] inlined(defs, outputs, start).0[q]).base
                    && defs[q0].exts == inlined(defs, outputs, start).0[q].exts,
    decreases defs.len(),
{
    let p = last_intermediate(defs, outputs);
    if 0 <= p < defs.len() {
        let source = defs[p];
        let rest = defs.remove(p);
        let s1 = start + round_ids(rest, source);
        let next = inline_round(rest, source, start);
        lemma_inlined_exts(next, outputs, s1);
        let out = inlined(next, outputs, s1).0;
        assert(inlined(defs, outputs, start) == inlined(next, outputs, s1));
        assert forall|q: int| 0 <= q < out.len() implies exists|q0: int|
            0 <= q0 < defs.len() && defs[q0].base == (#[trigger] out[q]).base && defs[q0].exts == out[q].exts by {
            let q1 = choose|q1: int| 0 <= q1 < next.len() && next[q1].base == out[q].base && next[q1].exts == out[q].exts;
            if q1 < p {
                assert(rest[q1] == defs[q1]);
                assert(defs[q1].base == out[q].base && defs[q1].exts == out[q].exts);
            } else {
                assert(rest[q1] == defs[q1 + 1]);
                assert(defs[q1 + 1].base == out[q].base && defs[q1 + 1].exts == out[q].exts);
            }
        }
    }
}

/// In definitions with distinct bases, the definition of `tensor` is the one
/// at any position whose base is `tensor`.
proof fn lemma_definition_at(defs: Seq<TensorDefView>, tensor: TensorId, q: int)
    requires
        bases_distinct(defs),
        0 <= q < defs.len(),
        defs[q].base == tensor,
    ensures
        definition_of(defs, tensor) == defs[q],
{
    let c = choose|c: int| 0 <= c < defs.len() && (#[trigger] defs[c]).base == tensor;
    assert(defs[c].base == tensor);
}

/// Comparing a valid state with one that extends its interfaces and keeps
/// its protected outputs reaches the comparison of the outputs' canonical
/// differences: no mismatch of outputs, interfaces or tensor descriptions is
/// reported.
pub proof fn lemma_extended_states_comparable(before: StateView, after: StateView, r: Result<bool, VerifyError>)
    requires
        crate::state::state_valid(before.computation, before.protected_outputs),
        crate::state::state_valid(after.computation, after.protected_outputs),
        after.protected_outputs == before.protected_outputs,
        extends_interfaces(before.computation, after.computation),
        states_verdict(before, after, r),
    ensures
        r is Ok || r == Err::<bool, VerifyError>(VerifyError::ExhaustedIndexIds) || r matches Err(
            VerifyError::Canonicalization(_),
        ),
{
    let lc = before.computation;
    let rc = after.computation;
    let lo = before.protected_outputs;
    let start = fresh_bound(lc, rc);
    let (ld, lend) = inlined(lc.definitions, lo, start);
    let (rd, rend) = inlined(rc.definitions, lo, start);
    assert(!exists|t: TensorId| lo.contains(t) != after.protected_outputs.contains(t));
    if lend > id_space() || rend > id_space() {
        return;
    }
    lemma_valid_inlinable(lc);
    lemma_valid_inlinable(rc);
    lemma_inlined_keeps(lc.tensors, lc.definitions, lo, start);
    lemma_inlined_keeps(rc.tensors, rc.definitions, lo, start);
    lemma_inlined_exts(lc.definitions, lo, start);
    lemma_inlined_exts(rc.definitions, lo, start);
    assert(bases_distinct(lc.definitions));
    assert(bases_distinct(rc.definitions));
    assert forall|o: TensorId| !#[trigger] interface_conflict(lo, ld, rd, o) by {
        if lo.contains(o) {
            let k = choose|k: int| 0 <= k < lo.len() && lo[k] == o;
            assert(crate::valid::defines(lc, lo[k]));
            let q = choose|q: int| 0 <= q < lc.definitions.len() && (#[trigger] lc.definitions[q]).base == o;
            assert(has_definition(lc.definitions, o));
            assert(rc.definitions[q].base == o);
            assert(has_definition(rc.definitions, o));
            assert(has_definition(ld, o));
            assert(has_definition(rd, o));
            let ql = choose|ql: int| 0 <= ql < ld.len() && (#[trigger] ld[ql]).base == o;
            let qr = choose|qr: int| 0 <= qr < rd.len() && (#[trigger] rd[qr]).base == o;
            lemma_definition_at(ld, o, ql);
            lemma_definition_at(rd, o, qr);
            let ql0 = choose|q0: int| 0 <= q0 < lc.definitions.len() && lc.definitions[q0].base == ld[ql].base && lc.definitions[q0].exts == ld[ql].exts;
            let qr0 = choose|q0: int| 0 <= q0 < rc.definitions.len() && rc.definitions[q0].base == rd[qr].base && rc.definitions[q0].exts == rd[qr].exts;
            assert(ql0 == q);
            assert(qr0 == q);
            assert(interfaces_agree(lc.definitions[q], rc.definitions[q]));
        }
    }
    assert forall|t: TensorId| !#[trigger] metadata_conflict(lc, rc, ld, rd, t) by {
        if names_tensor(ld, t) {
            let (p, x, f) = choose|p: int, x: int, f: int|
                0 <= p < ld.len() && 0 <= x < ld[p].rhs.len() && 0 <= f < ld[p].rhs[x].factors.len()
                    && #[trigger] ld[p].rhs[x].factors[f].tensor == t;
            assert(definition_inlinable(lc.tensors, ld[p]));
            assert(term_inlinable(lc.tensors, ld[p].exts, ld[p].rhs[x]));
            assert(factor_ranked(lc.tensors, ld[p].rhs[x].factors[f]));
            assert(lookup_tensor(rc.tensors, t) == lookup_tensor(lc.tensors, t));
        }
    }
}

/// Compare the protected outputs of two validated rewrite states exactly.
pub fn equivalent_states(lhs: &State, rhs: &State) -> (r: Result<bool, VerifyError>)
    ensures
        states_verdict(lhs@, rhs@, r),
{
    let lhs_computation = lhs.computation();
    let rhs_computation = rhs.computation();
    let lhs_outputs = ascending_tensors(lhs.protected_outputs());
    let rhs_outputs = ascending_tensors(rhs.protected_outputs());
    let ghost lo = lhs@.protected_outputs;
    let ghost ro = rhs@.protected_outputs;
    if !same_members(&lhs_outputs, &rhs_outputs) {
        proof {
            let t = choose|t: TensorId| !(lhs_outputs@.contains(t) <==> rhs_outputs@.contains(t));
            assert(lo.contains(t) != ro.contains(t));
        }
        return Err(VerifyError::ProtectedOutputsMismatch { lhs: lhs_outputs, rhs: rhs_outputs });
    }
    assert(!exists|t: TensorId| lo.contains(t) != ro.contains(t));
    let first_fresh = first_fresh_index(lhs_computation, rhs_computation);
    let ghost start = first_fresh as int;
    proof {
        lemma_valid_inlinable(lhs@.computation);
        lemma_valid_inlinable(rhs@.computation);
        lemma_inlined_keeps(lhs@.computation.tensors, lhs@.computation.definitions, lo, start);
        lemma_inlined_keeps(rhs@.computation.tensors, rhs@.computation.definitions, ro, start);
    }
    let ghost ld = inlined(lhs@.computation.definitions, lo, start).0;
    let ghost rd = inlined(rhs@.computation.definitions, ro, start).0;
    let mut lhs_fresh = first_fresh;
    let mut rhs_fresh = first_fresh;
    let lhs_definitions = match inline_intermediates(lhs_computation, lhs.protected_outputs(), &mut lhs_fresh) {
        Ok(definitions) => definitions,
        Err(e) => {
            return Err(e);
        },
    };
    let rhs_definitions = match inline_intermediates(rhs_computation, rhs.protected_outputs(), &mut rhs_fresh) {
        Ok(definitions) => definitions,
        Err(e) => {
            return Err(e);
        },
    };
    assert(start == fresh_bound(lhs@.computation, rhs@.computation));
    assert(inlined(lhs@.computation.definitions, lo, start).1 <= id_space());
    assert(inlined(rhs@.computation.definitions, ro, start).1 <= id_space());
    assert(definitions_view(lhs_definitions@) == ld);
    assert(definitions_view(rhs_definitions@) == rd);
    proof {
        assert(bases_distinct(lhs@.computation.definitions));
        assert(bases_distinct(rhs@.computation.definitions));
        assert(bases_distinct(ld));
        assert(bases_distinct(rd));
    }
    let mut k: usize = 0;
    while k < lhs_outputs.len()
        invariant
            k <= lhs_outputs.len(),
            tensors_ascending(lhs_outputs@),
            forall|t: TensorId| lhs_outputs@.contains(t) <==> lo.contains(t),
            forall|t: TensorId| lo.contains(t) <==> ro.contains(t),
            lo == lhs@.protected_outputs,
            ro == rhs@.protected_outputs,
            !exists|t: TensorId| lo.contains(t) != ro.contains(t),
            start == fresh_bound(lhs@.computation, rhs@.computation),
            ld == inlined(lhs@.computation.definitions, lo, start).0,
            rd == inlined(rhs@.computation.definitions, ro, start).0,
            inlined(lhs@.computation.definitions, lo, start).1 <= id_space(),
            inlined(rhs@.computation.definitions, ro, start).1 <= id_space(),
            ld == definitions_view(lhs_definitions@),
            rd == definitions_view(rhs_definitions@),
            bases_distinct(ld),
            bases_distinct(rd),
            keeps_outputs(lhs@.computation.definitions, ld, lo),
            keeps_outputs(rhs@.computation.definitions, rd, ro),
            crate::valid::outputs_valid(lhs@.computation, lo),
            crate::valid::outputs_valid(rhs@.computation, ro),
            forall|j: int| 0 <= j < k ==> !interface_conflict(lo, ld, rd, #[trigger] lhs_outputs@[j]),
        decreases lhs_outputs.len() - k,
    {
        let output = lhs_outputs[k];
        proof {
            assert(lhs_outputs@[k as int] == output);
            assert(lhs_outputs@.contains(output));
            assert(lo.contains(output));
            assert(ro.contains(output));
            let q = choose|q: int| 0 <= q < lo.len() && lo[q] == output;
            assert(crate::valid::defines(lhs@.computation, lo[q]));
            let q2 = choose|q: int| 0 <= q < ro.len() && ro[q] == output;
            assert(crate::valid::defines(rhs@.computation, ro[q2]));
            assert(has_definition(lhs@.computation.definitions, output));
            assert(has_definition(ld, output));
            assert(has_definition(rhs@.computation.definitions, output));
            assert(has_definition(rd, output));
        }
        let lp = match find_definition(&lhs_definitions, output) {
            Some(p) => p,
            None => {
                proof {
                    assert(false);
                }
                return Err(VerifyError::ExhaustedIndexIds);
            },
        };
        let rp = match find_definition(&rhs_definitions, output) {
            Some(p) => p,
            None => {
                proof {
                    assert(false);
                }
                return Err(VerifyError::ExhaustedIndexIds);
            },
        };
        proof {
            lemma_definition_of(ld, output, lp as int);
            lemma_definition_of(rd, output, rp as int);
        }
        match compare_output_interfaces(&lhs_definitions[lp], &rhs_definitions[rp]) {
            Ok(()) => {},
            Err(e) => {
                proof {
                    assert(interface_conflict(lo, ld, rd, output));
                    assert(interface_error(definition_of(ld, output), definition_of(rd, output), e));
                    assert forall|o2: TensorId| #[trigger] interface_conflict(lo, ld, rd, o2) implies output.0 <= o2.0 by {
                        assert(lhs_outputs@.contains(o2));
                        let j = choose|j: int| 0 <= j < lhs_outputs.len() && lhs_outputs@[j] == o2;
                        if j < k {
                            assert(!interface_conflict(lo, ld, rd, lhs_outputs@[j]));
                        } else if j > k {
                            assert(lhs_outputs@[k as int].0 < lhs_outputs@[j].0);
                        }
                    }
                }
                return Err(e);
            },
        }
        assert(!interface_conflict(lo, ld, rd, output));
        k = k + 1;
    }
    proof {
        assert forall|o: TensorId| !interface_conflict(lo, ld, rd, o) by {
            if interface_conflict(lo, ld, rd, o) {
                assert(lhs_outputs@.contains(o));
                let j = choose|j: int| 0 <= j < lhs_outputs.len() && lhs_outputs@[j] == o;
                assert(!interface_conflict(lo, ld, rd, lhs_outputs@[j]));
            }
        }
        lemma_named_known(lhs@.computation.tensors, ld);
        lemma_named_known(rhs@.computation.tensors, rd);
    }
    let context = match merged_context(lhs_computation, rhs_computation, &lhs_definitions, &rhs_definitions) {
        Ok(context) => context,
        Err(e) => {
            return Err(e);
        },
    };
    let mut k: usize = 0;
    while k < lhs_outputs.len()
        invariant
            k <= lhs_outputs.len(),
            forall|t: TensorId| lhs_outputs@.contains(t) <==> lo.contains(t),
            forall|t: TensorId| lo.contains(t) <==> ro.contains(t),
            lo == lhs@.protected_outputs,
            ro == rhs@.protected_outputs,
            !exists|t: TensorId| lo.contains(t) != ro.contains(t),
            start == fresh_bound(lhs@.computation, rhs@.computation),
            ld == inlined(lhs@.computation.definitions, lo, start).0,
            rd == inlined(rhs@.computation.definitions, ro, start).0,
            inlined(lhs@.computation.definitions, lo, start).1 <= id_space(),
            inlined(rhs@.computation.definitions, ro, start).1 <= id_space(),
            ld == definitions_view(lhs_definitions@),
            rd == definitions_view(rhs_definitions@),
            bases_distinct(ld),
            bases_distinct(rd),
            keeps_outputs(lhs@.computation.definitions, ld, lo),
            keeps_outputs(rhs@.computation.definitions, rd, ro),
            crate::valid::outputs_valid(lhs@.computation, lo),
            crate::valid::outputs_valid(rhs@.computation, ro),
            is_merged_context(lhs@.computation, rhs@.computation, ld, rd, context@),
            forall|o: TensorId| !interface_conflict(lo, ld, rd, o),
            forall|t: TensorId| !metadata_conflict(lhs@.computation, rhs@.computation, ld, rd, t),
            forall|j: int| 0 <= j < k ==> difference_cancels(context@, ld, rd, #[trigger] lhs_outputs@[j]),
        decreases lhs_outputs.len() - k,
    {
        let output = lhs_outputs[k];
        proof {
            assert(lhs_outputs@[k as int] == output);
            assert(lhs_outputs@.contains(output));
            assert(lo.contains(output));
            assert(ro.contains(output));
            let q = choose|q: int| 0 <= q < lo.len() && lo[q] == output;
            assert(crate::valid::defines(lhs@.computation, lo[q]));
            let q2 = choose|q: int| 0 <= q < ro.len() && ro[q] == output;
            assert(crate::valid::defines(rhs@.computation, ro[q2]));
            assert(has_definition(lhs@.computation.definitions, output));
            assert(has_definition(ld, output));
            assert(has_definition(rhs@.computation.definitions, output));
            assert(has_definition(rd, output));
        }
        let lp = match find_definition(&lhs_definitions, output) {
            Some(p) => p,
            None => {
                proof {
                    assert(false);
                }
                return Err(VerifyError::ExhaustedIndexIds);
            },
        };
        let rp = match find_definition(&rhs_definitions, output) {
            Some(p) => p,
            None => {
                proof {
                    assert(false);
                }
                return Err(VerifyError::ExhaustedIndexIds);
            },
        };
        proof {
            lemma_definition_of(ld, output, lp as int);
            lemma_definition_of(rd, output, rp as int);
        }
        let lhs_definition = &lhs_definitions[lp];
        let rhs_definition = &rhs_definitions[rp];
        let mut terms: Vec<Term> = Vec::new();
        let mut j: usize = 0;
        while j < lhs_definition.rhs.len()
            invariant
                j <= lhs_definition.rhs.len(),
                terms_view(terms@) =~= lhs_definition@.rhs.take(j as int),
            decreases lhs_definition.rhs.len() - j,
        {
            terms.push(lhs_definition.rhs[j].clone());
            proof {
                assert(lhs_definition@.rhs[j as int] == lhs_definition.rhs@[j as int]@);
                assert(lhs_definition@.rhs.take(j + 1) =~= lhs_definition@.rhs.take(j as int).push(lhs_definition@.rhs[j as int]));
            }
            j = j + 1;
        }
        let negated = negated_terms(&rhs_definition.rhs);
        let ghost before = terms@;
        let mut j: usize = 0;
        while j < negated.len()
            invariant
                j <= negated.len(),
                terms_view(terms@) =~= terms_view(before) + terms_view(negated@).take(j as int),
            decreases negated.len() - j,
        {
            let ghost prior = terms@;
            terms.push(negated[j].clone());
            proof {
                assert(terms_view(negated@).take(j + 1) =~= terms_view(negated@).take(j as int).push(negated@[j as int]@));
                assert(terms_view(terms@) =~= terms_view(prior).push(negated@[j as int]@));
            }
            j = j + 1;
        }
        proof {
            assert(lhs_definition@.rhs.take(lhs_definition.rhs.len() as int) =~= lhs_definition@.rhs);
            assert(terms_view(negated@).take(negated.len() as int) =~= terms_view(negated@));
            assert(terms_view(terms@) =~= difference(lhs_definition@, rhs_definition@));
        }
        let fixed = lhs_definition.exts.as_slice();
        let sources = terms.as_slice();
        assert(fixed@ == lhs_definition@.exts);
        assert(terms_view(sources@) == difference(lhs_definition@, rhs_definition@));
        match canon_expr(&context, fixed, sources) {
            Ok(canonical) => {
                let ghost cs = choose|cs: Seq<Option<TermView>>|
                    #[trigger] canonical_choices(context@, fixed@, terms_view(sources@), cs)
                        && is_reordering(terms_view(canonical@), drop_zeros(merge(cs)));
                proof {
                    assert(canonical_difference(context@, ld, rd, output, cs));
                }
                if canonical.len() > 0 {
                    return Ok(false);
                }
                proof {
                    assert(drop_zeros(merge(cs)).len() == 0);
                    assert(lhs_outputs@[k as int] == output);
                    assert(canonical_difference(context@, ld, rd, lhs_outputs@[k as int], cs));
                    assert(difference_cancels(context@, ld, rd, lhs_outputs@[k as int]));
                }
            },
            Err(e) => {
                proof {
                    assert(lhs_definition@ == definition_of(ld, output) && rhs_definition@ == definition_of(rd, output));
                    let diff = difference(definition_of(ld, output), definition_of(rd, output));
                    if e is ExhaustedIndexIds {
                        let k = choose|k: int| 0 <= k < sources.len() && crate::canon::ids_short(fixed@, (#[trigger] sources@[k]@).sums.len() as int);
                        assert(terms_view(sources@)[k] == sources@[k]@);
                        assert(crate::canon::ids_short(fixed@, diff[k].sums.len() as int));
                    } else {
                        let k = choose|k: int| 0 <= k < sources.len() && !crate::valid::term_context_valid(context@, fixed@, #[trigger] sources@[k]@);
                        assert(terms_view(sources@)[k] == sources@[k]@);
                        assert(!crate::valid::term_context_valid(context@, fixed@, diff[k]));
                    }
                    assert(difference_fails(context@, ld, rd, output, e));
                }
                return Err(VerifyError::Canonicalization(e));
            },
        }
        k = k + 1;
    }
    proof {
        assert forall|o: TensorId| lo.contains(o) implies exists|c: ComputationView, cs: Seq<Option<TermView>>|
            is_merged_context(lhs@.computation, rhs@.computation, ld, rd, c) && #[trigger] canonical_difference(
                c,
                ld,
                rd,
                o,
                cs,
            ) && drop_zeros(merge(cs)).len() == 0 by {
            assert(lhs_outputs@.contains(o));
            let j = choose|j: int| 0 <= j < lhs_outputs.len() && lhs_outputs@[j] == o;
            assert(difference_cancels(context@, ld, rd, lhs_outputs@[j]));
            let cs = choose|cs: Seq<Option<TermView>>|
                #[trigger] canonical_difference(context@, ld, rd, o, cs) && drop_zeros(merge(cs)).len() == 0;
            assert(canonical_difference(context@, ld, rd, o, cs));
        }
    }
    Ok(true)
}

/// `s` is a state built from a computation and its protected outputs.
pub open spec fn built_from(c: ComputationView, outputs: Seq<TensorId>, s: StateView) -> bool {
    &&& canonical_form(c, s.computation)
    &&& s.protected_outputs == outputs
    &&& crate::state::state_valid(s.computation, s.protected_outputs)
    &&& crate::valid::acyclic(s.computation)
}

/// A computation and its outputs pass validation.
pub open spec fn accepted(c: ComputationView, outputs: Seq<TensorId>) -> bool {
    crate::valid::computation_valid(c) && crate::valid::outputs_valid(c, outputs)
}

/// Some definition of the computation exhausts the index identities.
pub open spec fn computation_exhausts(c: ComputationView) -> bool {
    exists|p: int| 0 <= p < c.definitions.len() && crate::state::canonicalize::definition_exhausts(#[trigger] c.definitions[p])
}

/// Validate two computations and compare the requested output tensors exactly.
pub fn equivalent_computations(lhs: &Computation, rhs: &Computation, outputs: &[TensorId]) -> (r: Result<
    bool,
    VerifyError,
>)
    ensures
        !accepted(lhs@, outputs@) ==> (r matches Err(VerifyError::InvalidComputation { side, error }) && side@
            == "lhs"@ && is_validation_error(error)),
        accepted(lhs@, outputs@) && !accepted(rhs@, outputs@) ==> (r matches Err(
            VerifyError::InvalidComputation { side, error },
        ) && (side@ == "rhs"@ && is_validation_error(error) || side@ == "lhs"@ && !is_validation_error(
            error,
        ))),
        accepted(lhs@, outputs@) && accepted(rhs@, outputs@) ==> (r matches Err(
            VerifyError::InvalidComputation { error, .. },
        ) ==> !is_validation_error(error)),
        r matches Err(VerifyError::InvalidComputation { error, .. }) ==> error == StateError::Canonicalization(
            CanonError::ExhaustedIndexIds,
        ) || is_validation_error(error) || error is DependencyCycle,
        r matches Err(VerifyError::InvalidComputation { side, error }) ==> (error == StateError::Canonicalization(
            CanonError::ExhaustedIndexIds,
        ) ==> if side@ == "lhs"@ { computation_exhausts(lhs@) } else { computation_exhausts(rhs@) }),
        !(r matches Err(VerifyError::InvalidComputation { .. })) ==> exists|ls: StateView, rs: StateView|
            built_from(lhs@, outputs@, ls) && built_from(rhs@, outputs@, rs) && #[trigger] states_verdict(
                ls,
                rs,
                r,
            ),
{
    let mut lhs_outputs: Vec<TensorId> = Vec::new();
    let mut rhs_outputs: Vec<TensorId> = Vec::new();
    let mut k: usize = 0;
    while k < outputs.len()
        invariant
            k <= outputs.len(),
            lhs_outputs@ =~= outputs@.take(k as int),
            rhs_outputs@ =~= outputs@.take(k as int),
        decreases outputs.len() - k,
    {
        lhs_outputs.push(outputs[k]);
        rhs_outputs.push(outputs[k]);
        k = k + 1;
    }
    assert(outputs@.take(outputs.len() as int) =~= outputs@);
    let lhs_state = match State::new(lhs.clone(), lhs_outputs) {
        Ok(state) => state,
        Err(error) => {
            return Err(VerifyError::InvalidComputation { side: "lhs", error });
        },
    };
    let rhs_state = match State::new(rhs.clone(), rhs_outputs) {
        Ok(state) => state,
        Err(error) => {
            proof {
                reveal_strlit("lhs");
                reveal_strlit("rhs");
                assert("lhs"@[0] != "rhs"@[0]);
                assert("rhs"@ != "lhs"@);
            }
            let side = "rhs";
            assert(side@ == "rhs"@);
            return Err(VerifyError::InvalidComputation { side, error });
        },
    };
    let r = equivalent_states(&lhs_state, &rhs_state);
    assert(built_from(lhs@, outputs@, lhs_state@));
    assert(built_from(rhs@, outputs@, rhs_state@));
    r
}

} // verus!
