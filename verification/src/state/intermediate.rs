//! Recognition, reuse and creation of symbolic intermediates.

use crate::canon::{find_tensor, first_duplicate, same_body, swap_positions};
use crate::coeff::{is_zero_value, ratio_product, ratio_quotient, CoeffView, Coefficient};
use crate::repr::{
    terms_view, Computation, ComputationView, Index, IndexId, TensorDef, TensorDefView, TensorId,
    TensorInfoView, TensorRef, Term, TermView,
};
use crate::canon::CanonError;
use crate::repr::{definitions_view, tensors_view, TensorInfo, TensorRefView};
use crate::state::canonicalize::{
    canonical_definition_of, canonicalize_definition, definition_canonical, definition_exhausts, factors_sorted,
    lemma_canonical_definition_unique, lemma_canonical_shape,
};
use crate::state::{is_validation_error, state_valid, validate_definition, State, StateError, StateView};
use crate::valid::{
    body_valid, computation_valid, defines, definition_valid, distinct_ids, factor_valid, has_id,
    info_valid, lookup_tensor, perm_valid, term_context_valid, term_valid,
};
use vstd::prelude::*;

verus! {

// ----------------------------------------------------------------------------
// Facts about tables and scopes
// ----------------------------------------------------------------------------

/// Appending an entry for a tensor that the table lacks adds exactly that
/// lookup.
pub proof fn lemma_lookup_push(
    tensors: Seq<(TensorId, TensorInfoView)>,
    entry: (TensorId, TensorInfoView),
    tensor: TensorId,
)
    requires
        lookup_tensor(tensors, entry.0) is None,
    ensures
        lookup_tensor(tensors.push(entry), tensor) == if tensor == entry.0 {
            Some(entry.1)
        } else {
            lookup_tensor(tensors, tensor)
        },
    decreases tensors.len(),
{
    let pushed = tensors.push(entry);
    if tensors.len() == 0 {
        assert(pushed[0] == entry);
        if tensor != entry.0 {
            assert(pushed.drop_first() =~= Seq::<(TensorId, TensorInfoView)>::empty());
            assert(lookup_tensor(pushed, tensor) == lookup_tensor(pushed.drop_first(), tensor));
            assert(lookup_tensor(pushed.drop_first(), tensor) is None);
        }
    } else {
        assert(pushed[0] == tensors[0]);
        assert(pushed.drop_first() =~= tensors.drop_first().push(entry));
        assert(tensors[0].0 != entry.0);
        if tensors[0].0 != tensor {
            lemma_lookup_push(tensors.drop_first(), entry, tensor);
            assert(lookup_tensor(pushed, tensor) == lookup_tensor(pushed.drop_first(), tensor));
            assert(lookup_tensor(tensors, tensor) == lookup_tensor(tensors.drop_first(), tensor));
        } else {
            assert(lookup_tensor(pushed, tensor) == Some(tensors[0].1));
        }
    }
}

/// A term stays valid when the table only gains lookups.
pub proof fn lemma_term_valid_grown(c0: ComputationView, c1: ComputationView, exts: Seq<Index>, t: TermView)
    requires
        c1.ranges == c0.ranges,
        forall|x: TensorId|
            #[trigger] lookup_tensor(c0.tensors, x) is Some ==> lookup_tensor(c1.tensors, x)
                == lookup_tensor(c0.tensors, x),
        term_valid(c0, exts, t),
    ensures
        term_valid(c1, exts, t),
{
    assert forall|f: int| 0 <= f < t.factors.len() implies factor_valid(
        c1,
        exts,
        t.sums,
        #[trigger] t.factors[f],
    ) by {
        assert(factor_valid(c0, exts, t.sums, t.factors[f]));
        assert(lookup_tensor(c0.tensors, t.factors[f].tensor) is Some);
    }
}

/// A definition body stays valid when the table only gains lookups.
pub proof fn lemma_body_valid_grown(
    c0: ComputationView,
    c1: ComputationView,
    exts: Seq<Index>,
    rhs: Seq<TermView>,
)
    requires
        c1.ranges == c0.ranges,
        forall|x: TensorId|
            #[trigger] lookup_tensor(c0.tensors, x) is Some ==> lookup_tensor(c1.tensors, x)
                == lookup_tensor(c0.tensors, x),
        body_valid(c0, exts, rhs),
    ensures
        body_valid(c1, exts, rhs),
{
    assert forall|t: int| 0 <= t < rhs.len() implies term_valid(c1, exts, #[trigger] rhs[t]) by {
        lemma_term_valid_grown(c0, c1, exts, rhs[t]);
    }
}

/// The identities of a sequence of indices.
pub open spec fn ids_of(indices: Seq<Index>) -> Seq<IndexId> {
    indices.map_values(|i: Index| i.id)
}

/// The externals of `exts` rearranged by `perm`: position `k` holds
/// `exts[perm[k]]`.
pub open spec fn permute_indices(exts: Seq<Index>, perm: Seq<usize>) -> Seq<Index> {
    Seq::new(perm.len(), |k: int| exts[perm[k] as int])
}

/// Rearranging the externals by a permutation keeps a body valid.
pub proof fn lemma_body_valid_permuted(
    c: ComputationView,
    exts: Seq<Index>,
    perm: Seq<usize>,
    rhs: Seq<TermView>,
)
    requires
        perm_valid(perm, exts.len()),
        body_valid(c, exts, rhs),
    ensures
        body_valid(c, permute_indices(exts, perm), rhs),
{
    let p = permute_indices(exts, perm);
    assert forall|x: IndexId| has_id(p, x) <==> has_id(exts, x) by {
        if has_id(p, x) {
            let k = choose|k: int| 0 <= k < p.len() && (#[trigger] p[k]).id == x;
            assert(exts[perm[k] as int].id == x);
        }
        if has_id(exts, x) {
            let k = choose|k: int| 0 <= k < exts.len() && (#[trigger] exts[k]).id == x;
            crate::count::lemma_perm_onto(perm, exts.len(), k);
            let j = choose|j: int| 0 <= j < exts.len() && #[trigger] perm[j] == k;
            assert(p[j].id == x);
        }
    }
    assert forall|a: int, b: int| 0 <= a < p.len() && 0 <= b < p.len() && a != b implies (
    #[trigger] p[a]).id != (#[trigger] p[b]).id by {
        assert(perm[a] != perm[b]);
    }
    assert forall|k: int| 0 <= k < p.len() implies c.ranges.contains((#[trigger] p[k]).range) by {
        assert(p[k] == exts[perm[k] as int]);
    }
    assert forall|t: int| 0 <= t < rhs.len() implies term_valid(c, p, #[trigger] rhs[t]) by {
        let term = rhs[t];
        assert(term_valid(c, exts, term));
        assert forall|f: int| 0 <= f < term.factors.len() implies factor_valid(
            c,
            p,
            term.sums,
            #[trigger] term.factors[f],
        ) by {
            assert(factor_valid(c, exts, term.sums, term.factors[f]));
            assert forall|k: int| 0 <= k < term.factors[f].indices.len() implies has_id(
                p,
                #[trigger] term.factors[f].indices[k],
            ) || has_id(term.sums, term.factors[f].indices[k]) by {
                assert(has_id(exts, term.factors[f].indices[k]) || has_id(
                    term.sums,
                    term.factors[f].indices[k],
                ));
            }
        }
        assert forall|k: int| 0 <= k < term.sums.len() implies !has_id(
            p,
            (#[trigger] term.sums[k]).id,
        ) by {
            assert(!has_id(exts, term.sums[k].id));
        }
        assert(term_context_valid(c, p, term));
    }
}

// ----------------------------------------------------------------------------
// Small exact helpers
// ----------------------------------------------------------------------------

fn index_ids(indices: &Vec<Index>) -> (r: Vec<IndexId>)
    ensures
        r@ == ids_of(indices@),
{
    let mut r: Vec<IndexId> = Vec::new();
    let mut k: usize = 0;
    while k < indices.len()
        invariant
            k <= indices.len(),
            r@ =~= ids_of(indices@.subrange(0, k as int)),
        decreases indices.len() - k,
    {
        r.push(indices[k].id);
        assert(ids_of(indices@.subrange(0, k + 1)) =~= ids_of(indices@.subrange(0, k as int)).push(
            indices@[k as int].id,
        ));
        k = k + 1;
    }
    assert(indices@.subrange(0, indices.len() as int) =~= indices@);
    r
}

fn same_indices(a: &Vec<Index>, b: &Vec<Index>) -> (r: bool)
    ensures
        r == (a@ == b@),
{
    if a.len() != b.len() {
        return false;
    }
    let mut k: usize = 0;
    while k < a.len()
        invariant
            k <= a.len() == b.len(),
            forall|j: int| 0 <= j < k ==> a@[j] == b@[j],
        decreases a.len() - k,
    {
        if a[k] != b[k] {
            return false;
        }
        k = k + 1;
    }
    assert(a@ =~= b@);
    true
}

fn contains_tensor(list: &Vec<TensorId>, tensor: TensorId) -> (r: bool)
    ensures
        r == list@.contains(tensor),
{
    let mut k: usize = 0;
    while k < list.len()
        invariant
            k <= list.len(),
            forall|j: int| 0 <= j < k ==> list@[j] != tensor,
        decreases list.len() - k,
    {
        if list[k] == tensor {
            assert(list@[k as int] == tensor);
            return true;
        }
        k = k + 1;
    }
    false
}

pub fn contains_index_id(ids: &Vec<IndexId>, id: IndexId) -> (r: bool)
    ensures
        r == ids@.contains(id),
{
    let mut k: usize = 0;
    while k < ids.len()
        invariant
            k <= ids.len(),
            forall|j: int| 0 <= j < k ==> ids@[j] != id,
        decreases ids.len() - k,
    {
        if ids[k] == id {
            assert(ids@[k as int] == id);
            return true;
        }
        k = k + 1;
    }
    false
}

fn distinct_index_ids(ids: &Vec<IndexId>) -> (r: bool)
    ensures
        r == ids@.no_duplicates(),
{
    let mut b: usize = 0;
    while b < ids.len()
        invariant
            b <= ids.len(),
            forall|x: int, y: int| 0 <= x < b && 0 <= y < b && x != y ==> ids@[x] != ids@[y],
        decreases ids.len() - b,
    {
        let mut a: usize = 0;
        while a < b
            invariant
                a <= b < ids.len(),
                forall|x: int| 0 <= x < a ==> ids@[x] != ids@[b as int],
            decreases b - a,
        {
            if ids[a] == ids[b] {
                return false;
            }
            a = a + 1;
        }
        b = b + 1;
    }
    true
}

// ----------------------------------------------------------------------------
// Trivial aliases
// ----------------------------------------------------------------------------

/// A candidate that is one nonzero, sum-free term with one factor whose
/// distinct indices are exactly the distinct externals.
pub open spec fn is_trivial_alias(d: TensorDefView) -> bool {
    &&& d.rhs.len() == 1
    &&& d.rhs[0].factors.len() == 1
    &&& d.rhs[0].sums.len() == 0
    &&& !is_zero_value(d.rhs[0].coeff)
    &&& distinct_ids(d.exts)
    &&& d.rhs[0].factors[0].indices.no_duplicates()
    &&& d.rhs[0].factors[0].indices.len() == d.exts.len()
    &&& forall|k: int|
        0 <= k < d.exts.len() ==> d.rhs[0].factors[0].indices.contains(#[trigger] d.exts[k].id)
}

/// The single factor of a trivial alias denotes the candidate by itself: the
/// candidate's term sums over nothing, and the factor's indices are exactly
/// the candidate's externals, each once.
pub proof fn lemma_trivial_alias_denotes(d: TensorDefView)
    requires
        is_trivial_alias(d),
    ensures
        d.rhs[0].sums.len() == 0,
        d.rhs[0].factors[0].indices.no_duplicates(),
        forall|x: IndexId| #[trigger] d.rhs[0].factors[0].indices.contains(x) <==> has_id(d.exts, x),
{
    let ids = d.rhs[0].factors[0].indices;
    let ext_ids = d.exts.map_values(|i: Index| i.id);
    assert forall|x: IndexId| has_id(d.exts, x) implies #[trigger] ids.contains(x) by {
        let k = choose|k: int| 0 <= k < d.exts.len() && d.exts[k].id == x;
        assert(ids.contains(d.exts[k].id));
    }
    assert forall|x: IndexId| #[trigger] ids.contains(x) implies has_id(d.exts, x) by {
        if !has_id(d.exts, x) {
            assert(ext_ids.no_duplicates()) by {
                assert forall|a: int, b: int| 0 <= a < ext_ids.len() && 0 <= b < ext_ids.len() && a != b implies ext_ids[a]
                    != ext_ids[b] by {
                    assert(d.exts[a].id != d.exts[b].id);
                }
            }
            let bigger = ext_ids.to_set().insert(x);
            assert(bigger.subset_of(ids.to_set())) by {
                assert forall|y: IndexId| bigger.contains(y) implies ids.to_set().contains(y) by {
                    if y != x {
                        let k = choose|k: int| 0 <= k < ext_ids.len() && ext_ids[k] == y;
                        assert(has_id(d.exts, y)) by {
                            assert(d.exts[k].id == y);
                        }
                    }
                }
            }
            ext_ids.unique_seq_to_set();
            ids.unique_seq_to_set();
            assert(!ext_ids.to_set().contains(x)) by {
                if ext_ids.to_set().contains(x) {
                    let k = choose|k: int| 0 <= k < ext_ids.len() && ext_ids[k] == x;
                    assert(d.exts[k].id == x);
                }
            }
            vstd::set_lib::lemma_len_subset(bigger, ids.to_set());
            assert(bigger.len() == ext_ids.to_set().len() + 1);
        }
    }
}

/// The coefficient and factor of a candidate that is already a single
/// tensor occurrence.
#[verifier::loop_isolation(false)]
pub fn trivial_alias(candidate: &TensorDef) -> (r: Option<(Coefficient, TensorRef)>)
    ensures
        r is Some <==> is_trivial_alias(candidate@),
        r matches Some(alias) ==> alias.0@ == candidate@.rhs[0].coeff && alias.1@
            == candidate@.rhs[0].factors[0],
        r matches Some(alias) ==> candidate@.rhs[0].sums.len() == 0 && forall|x: IndexId|
            #[trigger] alias.1@.indices.contains(x) <==> has_id(candidate@.exts, x),
{
    if candidate.rhs.len() != 1 {
        return None;
    }
    let term = &candidate.rhs[0];
    assert(candidate@.rhs[0] == term@);
    if term.factors.len() != 1 {
        return None;
    }
    let factor = &term.factors[0];
    assert(term@.factors[0] == factor@);
    if term.sums.len() != 0 || term.coeff.is_zero() {
        return None;
    }
    if first_duplicate(candidate.exts.as_slice()).is_some() {
        return None;
    }
    if !distinct_index_ids(&factor.indices) {
        return None;
    }
    if factor.indices.len() != candidate.exts.len() {
        return None;
    }
    let mut k: usize = 0;
    while k < candidate.exts.len()
        invariant
            k <= candidate.exts.len(),
            forall|j: int| 0 <= j < k ==> factor.indices@.contains(#[trigger] candidate.exts@[j].id),
        decreases candidate.exts.len() - k,
    {
        if !contains_index_id(&factor.indices, candidate.exts[k].id) {
            return None;
        }
        k = k + 1;
    }
    proof {
        lemma_trivial_alias_denotes(candidate@);
    }
    Some((term.coeff.clone(), factor.clone()))
}

// ----------------------------------------------------------------------------
// Permutations
// ----------------------------------------------------------------------------

/// `a` and `b` agree on their first `upto` entries.
pub open spec fn agrees_below(a: Seq<usize>, b: Seq<usize>, upto: int) -> bool {
    forall|k: int| 0 <= k < upto ==> a[k] == b[k]
}

/// An entry of `result`, from position `from` on, equals `q`.
pub open spec fn produced(result: Seq<Vec<usize>>, from: int, q: Seq<usize>) -> bool {
    exists|k: int| from <= k < result.len() && #[trigger] result[k]@ == q
}

/// Push every arrangement of the entries of `current` from `position` on.
fn generate_permutations(
    n: usize,
    position: usize,
    current: &mut Vec<usize>,
    result: &mut Vec<Vec<usize>>,
)
    requires
        n == old(current).len(),
        position <= n,
        perm_valid(old(current)@, old(current).len() as nat),
    ensures
        final(current)@ == old(current)@,
        final(result)@.len() > old(result)@.len(),
        forall|k: int| 0 <= k < old(result)@.len() ==> final(result)@[k] == old(result)@[k],
        forall|k: int|
            old(result)@.len() <= k < final(result)@.len() ==> perm_valid(
                #[trigger] final(result)@[k]@,
                old(current).len() as nat,
            ),
        final(result)@[old(result)@.len() as int]@ == old(current)@,
        forall|q: Seq<usize>| #[trigger] perm_valid(q, n as nat) && agrees_below(q, old(current)@, position as int)
            ==> produced(final(result)@, old(result)@.len() as int, q),
        forall|k: int|
            old(result)@.len() <= k < final(result)@.len() ==> agrees_below(#[trigger] final(result)@[k]@, old(current)@, position as int),
        forall|a: int, b: int|
            old(result)@.len() <= a < b < final(result)@.len() ==> #[trigger] final(result)@[a]@ != #[trigger] final(result)@[b]@,
    decreases n - position,
{
    if position == n {
        let copy = current.clone();
        assert(copy@ =~= current@);
        let ghost before = result@;
        result.push(copy);
        proof {
            assert forall|q: Seq<usize>| #[trigger] perm_valid(q, n as nat) && agrees_below(q, current@, position as int)
                implies produced(result@, before.len() as int, q) by {
                assert(q =~= current@);
                assert(result@[before.len() as int]@ == q);
            }
        }
        return;
    }
    let ghost original = current@;
    let ghost start = result@;
    let mut next: usize = position;
    while next < current.len()
        invariant
            position <= next <= current.len() == n,
            position < n,
            current@ == original,
            perm_valid(original, n as nat),
            next > position ==> result@.len() > start.len(),
            next > position ==> result@[start.len() as int]@ == original,
            next == position ==> result@.len() == start.len(),
            result@.len() >= start.len(),
            forall|k: int| 0 <= k < start.len() ==> result@[k] == start[k],
            forall|k: int|
                start.len() <= k < result@.len() ==> perm_valid(#[trigger] result@[k]@, n as nat),
            forall|q: Seq<usize>| #[trigger] perm_valid(q, n as nat) && agrees_below(q, original, position as int)
                && (exists|m: int| position <= m < next && #[trigger] original[m] == q[position as int])
                ==> produced(result@, start.len() as int, q),
            forall|k: int| start.len() <= k < result@.len() ==> agrees_below(#[trigger] result@[k]@, original, position as int),
            forall|k: int| start.len() <= k < result@.len() ==> exists|m: int|
                position <= m < next && (#[trigger] result@[k])@[position as int] == original[m],
            forall|k: int| start.len() <= k < result@.len() ==> (#[trigger] result@[k])@.len() == n,
            forall|a: int, b: int| start.len() <= a < b < result@.len() ==> #[trigger] result@[a]@ != #[trigger] result@[b]@,
        decreases current.len() - next,
    {
        swap_positions(current, position, next);
        proof {
            let swapped = current@;
            if next == position {
                assert(swapped =~= original);
            }
            assert forall|a: int, b: int| 0 <= a < n && 0 <= b < n && a != b implies #[trigger] swapped[a]
                != #[trigger] swapped[b] by {
                let oa = if a == position as int {
                    next as int
                } else if a == next as int {
                    position as int
                } else {
                    a
                };
                let ob = if b == position as int {
                    next as int
                } else if b == next as int {
                    position as int
                } else {
                    b
                };
                assert(swapped[a] == original[oa]);
                assert(swapped[b] == original[ob]);
            }
            assert forall|k: int| 0 <= k < n implies #[trigger] swapped[k] < n by {
                let ok = if k == position as int {
                    next as int
                } else if k == next as int {
                    position as int
                } else {
                    k
                };
                assert(swapped[k] == original[ok]);
            }
        }
        let ghost before = result@;
        let ghost swapped = current@;
        generate_permutations(n, position + 1, current, result);
        proof {
            if next == position {
                assert(result@[start.len() as int]@ == original);
            } else {
                assert(result@[start.len() as int] == before[start.len() as int]);
            }
            assert forall|q: Seq<usize>| #[trigger] perm_valid(q, n as nat) && agrees_below(q, original, position as int)
                && (exists|m: int| position <= m < next + 1 && #[trigger] original[m] == q[position as int])
                implies produced(result@, start.len() as int, q) by {
                if exists|m: int| position <= m < next && #[trigger] original[m] == q[position as int] {
                    let k = choose|k: int| start.len() <= k < before.len() && #[trigger] before[k]@ == q;
                    assert(result@[k] == before[k]);
                } else {
                    let m = choose|m: int| position <= m < next + 1 && #[trigger] original[m] == q[position as int];
                    assert(m == next);
                    assert(agrees_below(q, swapped, position + 1)) by {
                        assert forall|k: int| 0 <= k < position + 1 implies q[k] == swapped[k] by {
                            if k < position {
                                assert(swapped[k] == original[k]);
                            } else {
                                assert(swapped[k] == original[next as int]);
                            }
                        }
                    }
                    let k = choose|k: int| before.len() <= k < result@.len() && #[trigger] result@[k]@ == q;
                    assert(start.len() <= k);
                }
            }
            assert forall|k: int| start.len() <= k < result@.len() implies agrees_below(#[trigger] result@[k]@, original, position as int)
                && (exists|m: int| position <= m < next + 1 && (#[trigger] result@[k])@[position as int] == original[m])
                && result@[k]@.len() == n by {
                if k < before.len() {
                    assert(result@[k] == before[k]);
                } else {
                    assert(agrees_below(result@[k]@, swapped, position + 1));
                    assert forall|j: int| 0 <= j < position implies result@[k]@[j] == original[j] by {
                        assert(result@[k]@[j] == swapped[j]);
                        assert(swapped[j] == original[j]);
                    }
                    assert(result@[k]@[position as int] == swapped[position as int]);
                    assert(swapped[position as int] == original[next as int]);
                    assert(perm_valid(result@[k]@, n as nat));
                }
            }
            assert forall|a: int, b: int| start.len() <= a < b < result@.len() implies #[trigger] result@[a]@ != #[trigger] result@[b]@ by {
                if b < before.len() {
                    assert(result@[a] == before[a] && result@[b] == before[b]);
                } else if a >= before.len() {
                } else {
                    assert(result@[a] == before[a]);
                    let m = choose|m: int| position <= m < next && (#[trigger] before[a])@[position as int] == original[m];
                    assert(agrees_below(result@[b]@, swapped, position + 1));
                    assert(result@[b]@[position as int] == original[next as int]);
                    assert(original[m] != original[next as int]);
                }
            }
        }
        swap_positions(current, position, next);
        assert(current@ =~= original);
        next = next + 1;
    }
    proof {
        assert forall|q: Seq<usize>| #[trigger] perm_valid(q, n as nat) && agrees_below(q, original, position as int)
            implies produced(result@, start.len() as int, q) by {
            crate::count::lemma_perm_onto(original, n as nat, q[position as int] as int);
            let j = choose|j: int| 0 <= j < n && #[trigger] original[j] == q[position as int];
            if j < position {
                assert(q[j] == original[j]);
            }
            assert(original[j] == q[position as int]);
        }
    }
}

/// Every permutation of `0..len`, the identity first.
pub fn permutations(len: usize) -> (r: Vec<Vec<usize>>)
    ensures
        r@.len() >= 1,
        r@[0]@ == Seq::new(len as nat, |k: int| k as usize),
        forall|k: int| 0 <= k < r.len() ==> perm_valid(#[trigger] r@[k]@, len as nat),
        forall|q: Seq<usize>| #[trigger] perm_valid(q, len as nat) ==> produced(r@, 0, q),
        forall|a: int, b: int| 0 <= a < b < r.len() ==> #[trigger] r@[a]@ != #[trigger] r@[b]@,
{
    let mut current: Vec<usize> = Vec::new();
    let mut k: usize = 0;
    while k < len
        invariant
            k <= len,
            current@ =~= Seq::new(k as nat, |j: int| j as usize),
        decreases len - k,
    {
        current.push(k);
        k = k + 1;
    }
    let mut result: Vec<Vec<usize>> = Vec::new();
    generate_permutations(len, 0, &mut current, &mut result);
    result
}

fn is_identity(perm: &Vec<usize>) -> (r: bool)
    ensures
        r == (perm@ == Seq::new(perm.len() as nat, |k: int| k as usize)),
{
    let mut k: usize = 0;
    while k < perm.len()
        invariant
            k <= perm.len(),
            forall|j: int| 0 <= j < k ==> perm@[j] == j,
        decreases perm.len() - k,
    {
        if perm[k] != k {
            assert(Seq::new(perm.len() as nat, |j: int| j as usize)[k as int] == k);
            return false;
        }
        k = k + 1;
    }
    assert(perm@ =~= Seq::new(perm.len() as nat, |j: int| j as usize));
    true
}

// ----------------------------------------------------------------------------
// Proportional right-hand sides
// ----------------------------------------------------------------------------

/// `candidate` is `existing` with every coefficient multiplied by `coeff`,
/// which is the ratio of their first coefficients.
pub open spec fn proportional(candidate: Seq<TermView>, existing: Seq<TermView>, coeff: CoeffView) -> bool {
    &&& candidate.len() >= 1
    &&& candidate.len() == existing.len()
    &&& coeff == ratio_quotient(candidate[0].coeff, existing[0].coeff)
    &&& forall|i: int|
        0 <= i < candidate.len() ==> (#[trigger] candidate[i]).sums == existing[i].sums
            && candidate[i].factors == existing[i].factors && candidate[i].coeff == ratio_product(
            existing[i].coeff,
            coeff,
        )
}

/// The factor by which `candidate` is a multiple of `existing`, if it is one.
pub fn proportional_rhs(candidate: &Vec<Term>, existing: &Vec<Term>) -> (r: Option<Coefficient>)
    requires
        existing.len() > 0 ==> !is_zero_value(existing@[0]@.coeff),
    ensures
        match r {
            Some(q) => candidate.len() > 0 && existing.len() > 0 && q@ == ratio_quotient(
                candidate@[0]@.coeff,
                existing@[0]@.coeff,
            ) && proportional(terms_view(candidate@), terms_view(existing@), q@),
            None => !(candidate.len() > 0 && existing.len() > 0 && proportional(
                terms_view(candidate@),
                terms_view(existing@),
                ratio_quotient(candidate@[0]@.coeff, existing@[0]@.coeff),
            )),
        },
{
    if candidate.len() == 0 || existing.len() == 0 {
        return None;
    }
    let coeff = candidate[0].coeff.div(&existing[0].coeff);
    if candidate.len() != existing.len() {
        return None;
    }
    let ghost cv = terms_view(candidate@);
    let ghost ev = terms_view(existing@);
    let mut i: usize = 0;
    while i < candidate.len()
        invariant
            i <= candidate.len() == existing.len(),
            cv == terms_view(candidate@),
            ev == terms_view(existing@),
            coeff@ == ratio_quotient(candidate@[0]@.coeff, existing@[0]@.coeff),
            forall|j: int|
                0 <= j < i ==> (#[trigger] cv[j]).sums == ev[j].sums && cv[j].factors
                    == ev[j].factors && cv[j].coeff == ratio_product(ev[j].coeff, coeff@),
        decreases candidate.len() - i,
    {
        assert(cv[i as int] == candidate@[i as int]@);
        assert(ev[i as int] == existing@[i as int]@);
        if !same_body(&candidate[i], &existing[i]) {
            return None;
        }
        let product = existing[i].coeff.mul(&coeff);
        if !candidate[i].coeff.equals(&product) {
            return None;
        }
        i = i + 1;
    }
    Some(coeff)
}

// ----------------------------------------------------------------------------
// Fresh tensors
// ----------------------------------------------------------------------------

/// The smallest tensor identity that the table does not use.
pub fn fresh_tensor_id(computation: &Computation) -> (r: Result<TensorId, StateError>)
    ensures
        r matches Ok(t) ==> lookup_tensor(computation@.tensors, t) is None && forall|s: u32|
            s < t.0 ==> #[trigger] lookup_tensor(computation@.tensors, TensorId(s)) is Some,
        r is Err ==> r == Err::<TensorId, StateError>(StateError::ExhaustedTensorIds) && forall|
            s: u32,
        | #[trigger] lookup_tensor(computation@.tensors, TensorId(s)) is Some,
{
    let mut candidate: u32 = 0;
    loop
        invariant
            forall|s: u32| s < candidate ==> #[trigger] lookup_tensor(computation@.tensors, TensorId(s)) is Some,
        decreases u32::MAX - candidate,
    {
        if find_tensor(&computation.tensors, TensorId(candidate)).is_none() {
            return Ok(TensorId(candidate));
        }
        if candidate == u32::MAX {
            return Err(StateError::ExhaustedTensorIds);
        }
        candidate = candidate + 1;
    }
}

// ----------------------------------------------------------------------------
// Growing a state
// ----------------------------------------------------------------------------

/// A state stays valid when its table gains a fresh tensor with valid
/// metadata.
pub proof fn lemma_valid_with_new_tensor(
    c0: ComputationView,
    outputs: Seq<TensorId>,
    entry: (TensorId, TensorInfoView),
)
    requires
        state_valid(c0, outputs),
        lookup_tensor(c0.tensors, entry.0) is None,
        info_valid(entry.1),
    ensures
        state_valid(
            ComputationView { tensors: c0.tensors.push(entry), ..c0 },
            outputs,
        ),
{
    let c1 = ComputationView { tensors: c0.tensors.push(entry), ..c0 };
    assert forall|x: TensorId| #[trigger] lookup_tensor(c0.tensors, x) is Some implies lookup_tensor(
        c1.tensors,
        x,
    ) == lookup_tensor(c0.tensors, x) by {
        lemma_lookup_push(c0.tensors, entry, x);
    }
    assert forall|k: int| 0 <= k < c1.tensors.len() implies info_valid(
        (#[trigger] c1.tensors[k]).1,
    ) by {
        if k < c0.tensors.len() {
            assert(c1.tensors[k] == c0.tensors[k]);
        }
    }
    assert forall|p: int| 0 <= p < c1.definitions.len() implies definition_valid(
        c1,
        #[trigger] c1.definitions[p],
    ) by {
        let d = c1.definitions[p];
        assert(definition_valid(c0, d));
        lemma_body_valid_grown(c0, c1, d.exts, d.rhs);
    }
    assert forall|k: int| 0 <= k < outputs.len() implies lookup_tensor(
        c1.tensors,
        #[trigger] outputs[k],
    ) is Some && defines(c1, outputs[k]) by {
        assert(lookup_tensor(c0.tensors, outputs[k]) is Some);
        lemma_lookup_push(c0.tensors, entry, outputs[k]);
        assert(defines(c0, outputs[k]));
        let p = choose|p: int| 0 <= p < c0.definitions.len() && (#[trigger] c0.definitions[p]).base == outputs[k];
        assert(c1.definitions[p].base == outputs[k]);
    }
}

/// A state stays valid when it gains a valid, canonical definition of a
/// tensor that was not defined.
pub proof fn lemma_valid_with_new_definition(
    c1: ComputationView,
    outputs: Seq<TensorId>,
    d: TensorDefView,
)
    requires
        state_valid(c1, outputs),
        definition_valid(c1, d),
        definition_canonical(d),
        !defines(c1, d.base),
    ensures
        state_valid(
            ComputationView { definitions: c1.definitions.push(d), ..c1 },
            outputs,
        ),
{
    let c2 = ComputationView { definitions: c1.definitions.push(d), ..c1 };
    assert forall|p: int| 0 <= p < c2.definitions.len() implies definition_valid(
        c2,
        #[trigger] c2.definitions[p],
    ) by {
        let e = c2.definitions[p];
        crate::valid::lemma_body_valid_context(c1, c2, e.exts, e.rhs);
        if p < c1.definitions.len() {
            assert(e == c1.definitions[p]);
        }
    }
    assert forall|a: int, b: int|
        0 <= a < c2.definitions.len() && 0 <= b < c2.definitions.len() && a != b implies (
        #[trigger] c2.definitions[a]).base != (#[trigger] c2.definitions[b]).base by {
        if a == c1.definitions.len() {
            assert(c2.definitions[b] == c1.definitions[b]);
        } else if b == c1.definitions.len() {
            assert(c2.definitions[a] == c1.definitions[a]);
        } else {
            assert(c2.definitions[a] == c1.definitions[a]);
            assert(c2.definitions[b] == c1.definitions[b]);
        }
    }
    assert forall|k: int| 0 <= k < outputs.len() implies lookup_tensor(
        c2.tensors,
        #[trigger] outputs[k],
    ) is Some && defines(c2, outputs[k]) by {
        assert(defines(c1, outputs[k]));
        let p = choose|p: int| 0 <= p < c1.definitions.len() && (#[trigger] c1.definitions[p]).base == outputs[k];
        assert(c2.definitions[p] == c1.definitions[p]);
    }
    assert forall|p: int| 0 <= p < c2.definitions.len() implies definition_canonical(
        #[trigger] c2.definitions[p],
    ) by {
        if p < c1.definitions.len() {
            assert(c2.definitions[p] == c1.definitions[p]);
        }
    }
}

/// A defined tensor is listed in the table of a valid computation.
proof fn lemma_defined_is_listed(c: ComputationView, tensor: TensorId)
    requires
        computation_valid(c),
        defines(c, tensor),
    ensures
        lookup_tensor(c.tensors, tensor) is Some,
{
    let p = choose|p: int| 0 <= p < c.definitions.len() && (#[trigger] c.definitions[p]).base == tensor;
    assert(definition_valid(c, c.definitions[p]));
}

// ----------------------------------------------------------------------------
// Adding intermediates
// ----------------------------------------------------------------------------

/// The candidate with its externals rearranged by `perm`.
pub open spec fn permuted_candidate(d: TensorDefView, perm: Seq<usize>) -> TensorDefView {
    TensorDefView { base: d.base, exts: permute_indices(d.exts, perm), rhs: d.rhs }
}

/// `reference` names an existing definition that is no protected output and
/// equals `d` up to the coefficient `coeff`: some arrangement `perm` of `d`'s
/// externals canonicalizes to that definition's externals and to `coeff`
/// times its right-hand side, and `reference` lists the arranged externals.
pub open spec fn reuses(
    c: ComputationView,
    outputs: Seq<TensorId>,
    d: TensorDefView,
    coeff: CoeffView,
    reference: TensorRefView,
) -> bool {
    exists|perm: Seq<usize>, q: int, out: TensorDefView|
        #![trigger canonical_definition_of(c, permuted_candidate(d, perm), out), c.definitions[q]]
        {
            &&& perm_valid(perm, d.exts.len())
            &&& 0 <= q < c.definitions.len()
            &&& !outputs.contains(c.definitions[q].base)
            &&& canonical_definition_of(c, permuted_candidate(d, perm), out)
            &&& out.exts == c.definitions[q].exts
            &&& proportional(out.rhs, c.definitions[q].rhs, coeff)
            &&& reference.tensor == c.definitions[q].base
            &&& reference.indices == ids_of(permute_indices(d.exts, perm))
        }
}

/// A canonical form `out` divided through by its first coefficient and
/// given the base `base`.
pub open spec fn scaled_definition(out: TensorDefView, base: TensorId) -> TensorDefView {
    TensorDefView {
        base,
        exts: out.exts,
        rhs: Seq::new(
            out.rhs.len(),
            |i: int|
                TermView {
                    sums: out.rhs[i].sums,
                    coeff: ratio_quotient(out.rhs[i].coeff, out.rhs[0].coeff),
                    factors: out.rhs[i].factors,
                },
        ),
    }
}

/// `c1` is `c0` with a new intermediate for `d`: the smallest unused tensor
/// identity, listed with the rank of `d` and no symmetry, defined by the
/// canonical form of `d` divided by its first coefficient `coeff`; `reference`
/// names it with `d`'s externals.
pub open spec fn creates(
    c0: ComputationView,
    d: TensorDefView,
    c1: ComputationView,
    coeff: CoeffView,
    reference: TensorRefView,
) -> bool {
    exists|out: TensorDefView|
        #[trigger] canonical_definition_of(c0, d, out) && {
            &&& out.rhs.len() >= 1
            &&& coeff == out.rhs[0].coeff
            &&& lookup_tensor(c0.tensors, reference.tensor) is None
            &&& forall|s: u32|
                s < reference.tensor.0 ==> #[trigger] lookup_tensor(c0.tensors, TensorId(s)) is Some
            &&& reference.indices == ids_of(d.exts)
            &&& c1.ranges == c0.ranges
            &&& c1.tensors == c0.tensors.push(
                (
                    reference.tensor,
                    TensorInfoView { rank: d.exts.len() as usize, symmetry: Seq::empty() },
                ),
            )
            &&& c1.definitions == c0.definitions.push(scaled_definition(out, reference.tensor))
        }
}

/// `after` is `before` with an intermediate for the candidate `d`, named by
/// `reference` and scaled by `coeff`: `d` itself when it is a single tensor
/// occurrence, else an existing definition that equals it up to `coeff`,
/// else a new definition.
pub open spec fn adds_intermediate(
    before: StateView,
    d: TensorDefView,
    after: StateView,
    coeff: CoeffView,
    reference: TensorRefView,
) -> bool {
    &&& after.protected_outputs == before.protected_outputs
    &&& {
        ||| is_trivial_alias(d) && after == before && coeff == d.rhs[0].coeff && reference
            == d.rhs[0].factors[0]
        ||| !is_trivial_alias(d) && body_valid(before.computation, d.exts, d.rhs) && after == before
            && reuses(before.computation, before.protected_outputs, d, coeff, reference)
        ||| !is_trivial_alias(d) && body_valid(before.computation, d.exts, d.rhs) && creates(
            before.computation,
            d,
            after.computation,
            coeff,
            reference,
        ) && forall|c2: CoeffView, r2: TensorRefView|
            !#[trigger] reuses(before.computation, before.protected_outputs, d, c2, r2)
    }
}

/// The definition at `q` is no protected output and equals `out` up to a
/// coefficient: the same externals, and a right-hand side that `out`'s is the
/// multiple of by the ratio of their first coefficients.
spec fn matches_existing(c: ComputationView, outputs: Seq<TensorId>, out: TensorDefView, q: int) -> bool {
    &&& 0 <= q < c.definitions.len()
    &&& !outputs.contains(c.definitions[q].base)
    &&& out.exts == c.definitions[q].exts
    &&& out.rhs.len() >= 1
    &&& c.definitions[q].rhs.len() >= 1
    &&& proportional(
        out.rhs,
        c.definitions[q].rhs,
        ratio_quotient(out.rhs[0].coeff, c.definitions[q].rhs[0].coeff),
    )
}

/// No canonical form of the candidate arranged by `perm` matches an
/// existing definition.
spec fn no_match_for(c: ComputationView, outputs: Seq<TensorId>, d: TensorDefView, perm: Seq<usize>) -> bool {
    forall|out: TensorDefView, q: int|
        #![trigger canonical_definition_of(c, permuted_candidate(d, perm), out), c.definitions[q]]
        canonical_definition_of(c, permuted_candidate(d, perm), out) ==> !matches_existing(c, outputs, out, q)
}

/// Where no arrangement of the candidate matches an existing definition,
/// nothing reuses one.
proof fn lemma_no_reuse(c: ComputationView, outputs: Seq<TensorId>, d: TensorDefView, perms: Seq<Vec<usize>>)
    requires
        forall|q: Seq<usize>| #[trigger] perm_valid(q, d.exts.len()) ==> crate::state::intermediate::produced(perms, 0, q),
        forall|k: int| 0 <= k < perms.len() ==> no_match_for(c, outputs, d, #[trigger] perms[k]@),
    ensures
        forall|coeff: CoeffView, reference: TensorRefView| !reuses(c, outputs, d, coeff, reference),
{
    assert forall|coeff: CoeffView, reference: TensorRefView| !reuses(c, outputs, d, coeff, reference) by {
        if reuses(c, outputs, d, coeff, reference) {
            let (perm, q, out) = choose|perm: Seq<usize>, q: int, out: TensorDefView|
                #![trigger canonical_definition_of(c, permuted_candidate(d, perm), out), c.definitions[q]]
                {
                    &&& perm_valid(perm, d.exts.len())
                    &&& 0 <= q < c.definitions.len()
                    &&& !outputs.contains(c.definitions[q].base)
                    &&& canonical_definition_of(c, permuted_candidate(d, perm), out)
                    &&& out.exts == c.definitions[q].exts
                    &&& proportional(out.rhs, c.definitions[q].rhs, coeff)
                    &&& reference.tensor == c.definitions[q].base
                    &&& reference.indices == ids_of(permute_indices(d.exts, perm))
                };
            assert(produced(perms, 0, perm));
            let k = choose|k: int| 0 <= k < perms.len() && #[trigger] perms[k]@ == perm;
            assert(no_match_for(c, outputs, d, perms[k]@));
            assert(canonical_definition_of(c, permuted_candidate(d, perm), out));
            assert(matches_existing(c, outputs, out, q));
        }
    }
}

/// Why adding an intermediate for `d` fails with `e`: `d` is invalid, or
/// its canonical form is empty, or the tensor identities are all used, or
/// the index identities run out for some arrangement of its externals.
pub open spec fn intermediate_failure(before: StateView, d: TensorDefView, e: StateError) -> bool {
    &&& !is_trivial_alias(d)
    &&& if body_valid(before.computation, d.exts, d.rhs) {
        ||| e == StateError::ZeroIntermediate && exists|out: TensorDefView|
            #[trigger] canonical_definition_of(before.computation, d, out) && out.rhs.len() == 0
        ||| e == StateError::ExhaustedTensorIds && forall|s: u32|
            #[trigger] lookup_tensor(before.computation.tensors, TensorId(s)) is Some
        ||| e == StateError::Canonicalization(CanonError::ExhaustedIndexIds) && exists|perm: Seq<usize>|
            perm_valid(perm, d.exts.len()) && #[trigger] definition_exhausts(permuted_candidate(d, perm))
    } else {
        is_validation_error(e)
    }
}

impl State {
    /// Return a reference to an intermediate equal to `candidate` up to a
    /// coefficient, adding one if needed.
    ///
    /// `candidate.base` is ignored. The returned coefficient and tensor
    /// reference are expressed in the candidate's index scope. Protected
    /// outputs are not eligible for reuse.
    #[verifier::loop_isolation(false)]
    #[verifier::rlimit(60)]
    pub fn add_intermediate(&mut self, candidate: TensorDef) -> (r: Result<
        (Coefficient, TensorRef),
        StateError,
    >)
        ensures
            final(self)@.protected_outputs == old(self)@.protected_outputs,
            r matches Ok(v) ==> adds_intermediate(old(self)@, candidate@, final(self)@, v.0@, v.1@),
            r matches Err(e) ==> final(self)@ == old(self)@ && !is_trivial_alias(candidate@),
            r matches Err(e) ==> if body_valid(
                old(self)@.computation,
                candidate@.exts,
                candidate@.rhs,
            ) {
                e == StateError::Canonicalization(CanonError::ExhaustedIndexIds) || e
                    == StateError::ZeroIntermediate || e == StateError::ExhaustedTensorIds
            } else {
                is_validation_error(e)
            },
            r == Err::<(Coefficient, TensorRef), StateError>(StateError::ZeroIntermediate)
                ==> exists|out: TensorDefView|
                #[trigger] canonical_definition_of(old(self)@.computation, candidate@, out)
                    && out.rhs.len() == 0,
            r == Err::<(Coefficient, TensorRef), StateError>(StateError::ExhaustedTensorIds)
                ==> forall|s: u32| #[trigger]
                lookup_tensor(old(self)@.computation.tensors, TensorId(s)) is Some,
            r == Err::<(Coefficient, TensorRef), StateError>(StateError::Canonicalization(CanonError::ExhaustedIndexIds))
                ==> exists|perm: Seq<usize>|
                perm_valid(perm, candidate@.exts.len()) && #[trigger] definition_exhausts(permuted_candidate(candidate@, perm)),
            r matches Err(e) ==> intermediate_failure(old(self)@, candidate@, e),
    {
        proof {
            use_type_invariant(&*self);
        }
        match trivial_alias(&candidate) {
            Some(alias) => {
                return Ok(alias);
            },
            None => {},
        }
        let ghost c0 = self@.computation;
        let ghost original = candidate@;
        validate_definition(&self.computation, &candidate)?;
        assert(body_valid(c0, original.exts, original.rhs));
        let exts = candidate.exts.clone();
        let mut working = candidate;
        assert(exts@ =~= original.exts);
        let perms = permutations(exts.len());
        let mut insertion: Option<TensorDef> = None;
        let mut i: usize = 0;
        while i < perms.len()
            invariant
                i <= perms.len(),
                self@ == old(self)@,
                c0 == self@.computation,
                state_valid(self@.computation, self@.protected_outputs),
                exts@ == original.exts,
                working@.base == original.base,
                working@.rhs == original.rhs,
                perms@[0]@ == Seq::new(exts.len() as nat, |k: int| k as usize),
                forall|k: int| 0 <= k < perms.len() ==> perm_valid(#[trigger] perms@[k]@, exts.len() as nat),
                i > 0 ==> (insertion matches Some(def) && canonical_definition_of(c0, original, def@)),
                forall|k: int| 0 <= k < i ==> no_match_for(c0, self@.protected_outputs, original, #[trigger] perms@[k]@),
            decreases perms.len() - i,
        {
            let permutation = &perms[i];
            assert(perm_valid(permutation@, exts.len() as nat));
            let mut arranged: Vec<Index> = Vec::new();
            let mut k: usize = 0;
            while k < permutation.len()
                invariant
                    k <= permutation.len() == exts.len(),
                    perm_valid(permutation@, exts.len() as nat),
                    arranged@ =~= permute_indices(exts@, permutation@).subrange(0, k as int),
                decreases permutation.len() - k,
            {
                arranged.push(exts[permutation[k]]);
                k = k + 1;
            }
            assert(arranged@ =~= permute_indices(exts@, permutation@));
            working.exts = arranged;
            assert(working@ =~= permuted_candidate(original, permutation@));
            proof {
                lemma_body_valid_permuted(c0, original.exts, permutation@, original.rhs);
            }
            let canonical = match canonicalize_definition(&self.computation, &working) {
                Ok(canonical) => canonical,
                Err(e) => {
                    assert(definition_exhausts(permuted_candidate(original, permutation@)));
                    return Err(StateError::Canonicalization(e));
                },
            };
            if is_identity(permutation) {
                assert(permute_indices(exts@, permutation@) =~= exts@);
                assert(working@ =~= original);
                insertion = Some(canonical.clone());
            }
            let mut q: usize = 0;
            while q < self.computation.definitions.len()
                invariant
                    q <= self.computation.definitions.len(),
                    self@ == old(self)@,
                    c0 == self@.computation,
                    state_valid(self@.computation, self@.protected_outputs),
                    canonical_definition_of(c0, permuted_candidate(original, permutation@), canonical@),
                    working@ == permuted_candidate(original, permutation@),
                    perm_valid(permutation@, exts.len() as nat),
                    forall|q2: int| 0 <= q2 < q ==> !matches_existing(c0, self@.protected_outputs, canonical@, q2),
                decreases self.computation.definitions.len() - q,
            {
                let existing = &self.computation.definitions[q];
                assert(c0.definitions[q as int] == existing@);
                if !contains_tensor(&self.protected_outputs, existing.base) && same_indices(
                    &canonical.exts,
                    &existing.exts,
                ) {
                    proof {
                        assert(definition_canonical(c0.definitions[q as int]));
                        if existing.rhs.len() > 0 {
                            assert(existing@.rhs[0] == existing.rhs@[0]@);
                        }
                    }
                    match proportional_rhs(&canonical.rhs, &existing.rhs) {
                        Some(coeff) => {
                            let reference = TensorRef {
                                tensor: existing.base,
                                indices: index_ids(&working.exts),
                            };
                            proof {
                                assert(canonical@.rhs == terms_view(canonical.rhs@));
                                assert(existing@.rhs == terms_view(existing.rhs@));
                                assert(canonical@.exts == existing@.exts);
                                let perm = permutation@;
                                let out = canonical@;
                                let qi = q as int;
                                assert(canonical_definition_of(c0, permuted_candidate(original, perm), out));
                                assert(c0.definitions[qi] == existing@);
                                assert(reuses(c0, self@.protected_outputs, original, coeff@, reference@));
                            }
                            return Ok((coeff, reference));
                        },
                        None => {},
                    }
                }
                proof {
                    assert(canonical@.rhs == terms_view(canonical.rhs@));
                    assert(existing@.rhs == terms_view(existing.rhs@));
                    if canonical@.rhs.len() >= 1 {
                        assert(canonical@.rhs[0] == canonical.rhs@[0]@);
                    }
                    if existing@.rhs.len() >= 1 {
                        assert(existing@.rhs[0] == existing.rhs@[0]@);
                    }
                }
                q = q + 1;
            }
            proof {
                assert forall|out: TensorDefView, q2: int|
                    #![trigger canonical_definition_of(c0, permuted_candidate(original, permutation@), out), c0.definitions[q2]]
                    canonical_definition_of(c0, permuted_candidate(original, permutation@), out) implies !matches_existing(
                    c0,
                    self@.protected_outputs,
                    out,
                    q2,
                ) by {
                    lemma_canonical_definition_unique(
                        c0,
                        permuted_candidate(original, permutation@),
                        out,
                        canonical@,
                    );
                }
                assert(no_match_for(c0, self@.protected_outputs, original, perms@[i as int]@));
            }
            i = i + 1;
        }
        proof {
            lemma_no_reuse(c0, self@.protected_outputs, original, perms@);
        }
        let mut definition = match insertion {
            Some(definition) => definition,
            None => {
                return Err(StateError::ZeroIntermediate);
            },
        };
        let ghost out = definition@;
        if definition.rhs.len() == 0 {
            return Err(StateError::ZeroIntermediate);
        }
        proof {
            lemma_canonical_shape(c0, original, out);
            assert(out.rhs[0] == definition.rhs@[0]@);
        }
        let coeff = definition.rhs[0].coeff.clone();
        let mut scaled: Vec<Term> = Vec::new();
        let mut t: usize = 0;
        while t < definition.rhs.len()
            invariant
                t <= definition.rhs.len(),
                definition@ == out,
                coeff@ == out.rhs[0].coeff,
                !is_zero_value(coeff@),
                scaled@.len() == t,
                forall|j: int|
                    0 <= j < t ==> (#[trigger] scaled@[j])@ == scaled_definition(out, out.base).rhs[j]
                        && !is_zero_value(scaled@[j]@.coeff),
            decreases definition.rhs.len() - t,
        {
            assert(out.rhs[t as int] == definition.rhs@[t as int]@);
            assert(!is_zero_value(out.rhs[t as int].coeff));
            let mut term = definition.rhs[t].clone();
            term.coeff = term.coeff.div(&coeff);
            scaled.push(term);
            t = t + 1;
        }
        let tensor = fresh_tensor_id(&self.computation)?;
        let reference = TensorRef { tensor, indices: index_ids(&exts) };
        definition.base = tensor;
        definition.rhs = scaled;
        assert(definition@ =~= scaled_definition(out, tensor));
        let info = TensorInfo { rank: exts.len(), symmetry: Vec::new() };
        let ghost entry = (tensor, info@);
        assert(info@.symmetry =~= Seq::<crate::repr::GeneratorView>::empty());
        let ghost c1 = ComputationView { tensors: c0.tensors.push(entry), ..c0 };
        let ghost c2 = ComputationView { definitions: c1.definitions.push(definition@), ..c1 };
        proof {
            lemma_valid_with_new_tensor(c0, self@.protected_outputs, entry);
            assert forall|x: TensorId| #[trigger] lookup_tensor(c0.tensors, x) is Some implies lookup_tensor(
                c1.tensors,
                x,
            ) == lookup_tensor(c0.tensors, x) by {
                lemma_lookup_push(c0.tensors, entry, x);
            }
            lemma_lookup_push(c0.tensors, entry, tensor);
            lemma_body_valid_grown(c0, c1, out.exts, out.rhs);
            let sd = definition@;
            assert forall|j: int| 0 <= j < sd.rhs.len() implies term_valid(c1, sd.exts, #[trigger] sd.rhs[j]) by {
                assert(term_valid(c1, out.exts, out.rhs[j]));
                assert(sd.rhs[j].sums == out.rhs[j].sums);
                assert(sd.rhs[j].factors == out.rhs[j].factors);
            }
            assert(definition_valid(c1, sd));
            assert forall|j: int| 0 <= j < sd.rhs.len() implies !is_zero_value((#[trigger] sd.rhs[j]).coeff) by {
                assert(sd.rhs[j] == scaled@[j]@);
                assert(!is_zero_value(out.rhs[j].coeff));
            }
            assert forall|j: int| 0 <= j < sd.rhs.len() implies factors_sorted(#[trigger] sd.rhs[j]) by {
                assert(factors_sorted(out.rhs[j]));
            }
            assert(definition_canonical(sd));
            if defines(c1, tensor) {
                lemma_defined_is_listed(c0, tensor);
            }
            lemma_valid_with_new_definition(c1, self@.protected_outputs, sd);
        }
        let (mut computation, outputs) = self.take_parts();
        let ghost before_tensors = computation.tensors@;
        let ghost before_definitions = computation.definitions@;
        computation.tensors.push((tensor, info));
        computation.definitions.push(definition);
        proof {
            assert(tensors_view(computation.tensors@) =~= tensors_view(before_tensors).push(entry));
            assert(definitions_view(computation.definitions@) =~= definitions_view(before_definitions).push(definition@));
            assert(computation@ =~= c2);
        }
        self.put_parts(computation, outputs);
        proof {
            assert(self@.computation =~= c2);
            assert(reference@.indices =~= ids_of(original.exts));
            assert(creates(c0, original, self@.computation, coeff@, reference@));
        }
        Ok((coeff, reference))
    }
}

} // verus!
