//! Canonicalization of individual tensor product terms.

use crate::coeff::{is_zero_value, numer_value, Coefficient};
use crate::order::{
    compare_index_ids, id_keys, int_order, lemma_lex_order_swap, lemma_lex_order_trans, lemma_lex_order_zero,
    lemma_lex_step, lex_order,
};
use crate::state::intermediate::{agrees_below, produced};
use crate::repr::{
    factors_view, Computation, ComputationView, Index, IndexId, SymmetryAction, SymmetryGenerator,
    TensorId, TensorInfo, TensorRef, TensorRefView, Term, TermView,
};
use crate::valid::{
    distinct_ids, factor_valid, has_id, info_valid, lookup_tensor, perm_valid, term_context_valid,
};
use vstd::prelude::*;

verus! {

/// A failure to validate, align or allocate index identities during
/// canonicalization.
#[derive(Clone, Debug, PartialEq, Eq)]
pub enum CanonError {
    DuplicateFixedIndex { index: IndexId },
    DuplicateSummedIndex { index: IndexId },
    FixedAndSummedIndexOverlap { index: IndexId },
    UnknownIndex { index: IndexId },
    UnknownTensor { tensor: TensorId },
    TensorArityMismatch { tensor: TensorId, expected: usize, got: usize },
    InvalidSymmetryPermutation { tensor: TensorId, perm: Vec<usize> },
    ExhaustedIndexIds,
}

/// The position of the first table entry for `tensor`.
pub fn find_tensor(tensors: &Vec<(TensorId, TensorInfo)>, tensor: TensorId) -> (r: Option<usize>)
    ensures
        match r {
            Some(i) => i < tensors.len() && tensors@[i as int].0 == tensor && lookup_tensor(
                crate::repr::tensors_view(tensors@),
                tensor,
            ) == Some(tensors@[i as int].1@),
            None => lookup_tensor(crate::repr::tensors_view(tensors@), tensor) is None,
        },
{
    let ghost view = crate::repr::tensors_view(tensors@);
    let ghost n = tensors.len() as int;
    assert(view.subrange(0, n) =~= view);
    let mut i: usize = 0;
    while i < tensors.len()
        invariant
            i <= tensors.len(),
            n == tensors.len(),
            view == crate::repr::tensors_view(tensors@),
            lookup_tensor(view, tensor) == lookup_tensor(view.subrange(i as int, n), tensor),
        decreases tensors.len() - i,
    {
        if tensors[i].0 == tensor {
            assert(view.subrange(i as int, n)[0] == view[i as int]);
            return Some(i);
        }
        proof {
            crate::valid::lemma_lookup_skip(view, tensor, i as int);
        }
        i = i + 1;
    }
    None
}

/// Whether some index in `indices` has identity `id`.
pub fn contains_id(indices: &[Index], id: IndexId) -> (r: bool)
    ensures
        r == has_id(indices@, id),
{
    let mut i: usize = 0;
    while i < indices.len()
        invariant
            i <= indices.len(),
            forall|k: int| 0 <= k < i ==> (#[trigger] indices@[k]).id != id,
        decreases indices.len() - i,
    {
        if indices[i].id == id {
            return true;
        }
        i = i + 1;
    }
    false
}

/// The first identity that occurs twice in `indices`, if any.
pub fn first_duplicate(indices: &[Index]) -> (r: Option<IndexId>)
    ensures
        r is None <==> distinct_ids(indices@),
        r matches Some(id) ==> exists|a: int, b: int|
            0 <= a < b < indices@.len() && indices@[a].id == id && indices@[b].id == id,
{
    let mut b: usize = 0;
    while b < indices.len()
        invariant
            b <= indices.len(),
            forall|x: int, y: int|
                0 <= x < b && 0 <= y < b && x != y ==> (#[trigger] indices@[x]).id
                    != (#[trigger] indices@[y]).id,
        decreases indices.len() - b,
    {
        let mut a: usize = 0;
        while a < b
            invariant
                a <= b < indices.len(),
                forall|x: int| 0 <= x < a ==> (#[trigger] indices@[x]).id != indices@[b as int].id,
            decreases b - a,
        {
            if indices[a].id == indices[b].id {
                return Some(indices[b].id);
            }
            a = a + 1;
        }
        b = b + 1;
    }
    None
}

/// Whether `perm` is a permutation of `0..rank`.
pub fn is_permutation(perm: &Vec<usize>, rank: usize) -> (r: bool)
    ensures
        r == perm_valid(perm@, rank as nat),
{
    if perm.len() != rank {
        return false;
    }
    let mut seen: Vec<bool> = Vec::new();
    let mut k: usize = 0;
    while k < rank
        invariant
            k <= rank,
            seen@.len() == k,
            forall|x: int| 0 <= x < k ==> !(#[trigger] seen@[x]),
        decreases rank - k,
    {
        seen.push(false);
        k = k + 1;
    }
    let mut i: usize = 0;
    while i < perm.len()
        invariant
            i <= perm.len() == rank,
            seen@.len() == rank,
            forall|x: int| 0 <= x < i ==> #[trigger] perm@[x] < rank,
            forall|x: int, y: int|
                0 <= x < i && 0 <= y < i && x != y ==> #[trigger] perm@[x] != #[trigger] perm@[y],
            forall|v: int|
                0 <= v < rank ==> (#[trigger] seen@[v] <==> exists|x: int|
                    0 <= x < i && perm@[x] == v),
        decreases perm.len() - i,
    {
        let position = perm[i];
        if position >= rank || seen[position] {
            return false;
        }
        seen.set(position, true);
        i = i + 1;
    }
    true
}

/// Validate the local context of a term.
pub fn check_context(computation: &Computation, fixed: &[Index], term: &Term) -> (r: Result<
    (),
    CanonError,
>)
    ensures
        r is Ok <==> term_context_valid(computation@, fixed@, term@),
        r matches Err(e) ==> !(e is ExhaustedIndexIds),
        r matches Err(e) ==> context_error(computation@, fixed@, term@, e),
{
    if let Some(index) = first_duplicate(fixed) {
        return Err(CanonError::DuplicateFixedIndex { index });
    }
    if let Some(index) = first_duplicate(term.sums.as_slice()) {
        assert(term.sums@ == term@.sums);
        return Err(CanonError::DuplicateSummedIndex { index });
    }
    let mut s: usize = 0;
    while s < term.sums.len()
        invariant
            s <= term.sums.len(),
            forall|k: int| 0 <= k < s ==> !has_id(fixed@, (#[trigger] term.sums@[k]).id),
        decreases term.sums.len() - s,
    {
        if contains_id(fixed, term.sums[s].id) {
            assert(term@.sums[s as int] == term.sums@[s as int]);
            assert(has_id(term@.sums, term.sums@[s as int].id));
            return Err(CanonError::FixedAndSummedIndexOverlap { index: term.sums[s].id });
        }
        s = s + 1;
    }
    let mut f: usize = 0;
    while f < term.factors.len()
        invariant
            f <= term.factors.len(),
            forall|k: int|
                0 <= k < f ==> factor_valid(
                    computation@,
                    fixed@,
                    term.sums@,
                    #[trigger] factors_view(term.factors@)[k],
                ),
        decreases term.factors.len() - f,
    {
        let factor = &term.factors[f];
        assert(factors_view(term.factors@)[f as int] == factor@);
        if let Some(err) = check_factor(computation, fixed, term.sums.as_slice(), factor) {
            assert(term@.factors[f as int] == factor@);
            assert(term@.sums == term.sums@);
            return Err(err);
        }
        f = f + 1;
    }
    assert(term@.factors == factors_view(term.factors@));
    Ok(())
}

/// What a context error reports of a factor: its tensor is unknown, has
/// another rank, or declares an invalid symmetry, or one of its indices is
/// neither fixed nor summed.
pub open spec fn factor_error(c: ComputationView, fixed: Seq<Index>, sums: Seq<Index>, f: TensorRefView, e: CanonError) -> bool {
    match e {
        CanonError::UnknownTensor { tensor } => tensor == f.tensor && lookup_tensor(c.tensors, tensor) is None,
        CanonError::TensorArityMismatch { tensor, expected, got } => {
            &&& tensor == f.tensor
            &&& lookup_tensor(c.tensors, tensor) is Some
            &&& lookup_tensor(c.tensors, tensor).unwrap().rank == expected
            &&& got == f.indices.len()
            &&& expected != got
        },
        CanonError::InvalidSymmetryPermutation { tensor, perm } => {
            &&& tensor == f.tensor
            &&& lookup_tensor(c.tensors, tensor) is Some
            &&& exists|g: int|
                0 <= g < lookup_tensor(c.tensors, tensor).unwrap().symmetry.len()
                    && (#[trigger] lookup_tensor(c.tensors, tensor).unwrap().symmetry[g]).perm == perm@
                    && !crate::valid::generator_valid(
                    lookup_tensor(c.tensors, tensor).unwrap().symmetry[g],
                    lookup_tensor(c.tensors, tensor).unwrap().rank as nat,
                )
        },
        CanonError::UnknownIndex { index } => f.indices.contains(index) && !has_id(fixed, index) && !has_id(sums, index),
        _ => false,
    }
}

/// What a context error reports of a term: a repeated fixed or summed
/// identity, an identity both fixed and summed, or an error of a factor.
pub open spec fn context_error(c: ComputationView, fixed: Seq<Index>, term: TermView, e: CanonError) -> bool {
    match e {
        CanonError::DuplicateFixedIndex { index } => exists|a: int, b: int|
            0 <= a < b < fixed.len() && fixed[a].id == index && fixed[b].id == index,
        CanonError::DuplicateSummedIndex { index } => exists|a: int, b: int|
            0 <= a < b < term.sums.len() && term.sums[a].id == index && term.sums[b].id == index,
        CanonError::FixedAndSummedIndexOverlap { index } => has_id(fixed, index) && has_id(term.sums, index),
        _ => exists|f: int| 0 <= f < term.factors.len() && factor_error(c, fixed, term.sums, #[trigger] term.factors[f], e),
    }
}

/// Validate one factor in the scope of fixed and summed indices.
fn check_factor(computation: &Computation, fixed: &[Index], sums: &[Index], factor: &TensorRef) -> (r:
    Option<CanonError>)
    ensures
        r is None <==> factor_valid(computation@, fixed@, sums@, factor@),
        r matches Some(e) ==> !(e is ExhaustedIndexIds),
        r matches Some(e) ==> factor_error(computation@, fixed@, sums@, factor@, e),
{
    let position = match find_tensor(&computation.tensors, factor.tensor) {
        Some(position) => position,
        None => {
            return Some(CanonError::UnknownTensor { tensor: factor.tensor });
        },
    };
    let info = &computation.tensors[position].1;
    if factor.indices.len() != info.rank {
        return Some(
            CanonError::TensorArityMismatch {
                tensor: factor.tensor,
                expected: info.rank,
                got: factor.indices.len(),
            },
        );
    }
    let mut g: usize = 0;
    assert(crate::repr::tensors_view(computation.tensors@)[position as int] == (factor.tensor, info@));
    while g < info.symmetry.len()
        invariant
            g <= info.symmetry.len(),
            lookup_tensor(computation@.tensors, factor.tensor) == Some(info@),
            forall|k: int|
                0 <= k < g ==> crate::valid::generator_valid(
                    #[trigger] info@.symmetry[k],
                    info.rank as nat,
                ),
        decreases info.symmetry.len() - g,
    {
        let generator = &info.symmetry[g];
        assert(info@.symmetry[g as int] == generator@);
        if !is_permutation(&generator.perm, info.rank) {
            assert(!crate::valid::generator_valid(info@.symmetry[g as int], info.rank as nat));
            return Some(
                CanonError::InvalidSymmetryPermutation {
                    tensor: factor.tensor,
                    perm: generator.perm.clone(),
                },
            );
        }
        g = g + 1;
    }
    let mut k: usize = 0;
    while k < factor.indices.len()
        invariant
            k <= factor.indices.len(),
            lookup_tensor(computation@.tensors, factor.tensor) == Some(info@),
            info.rank == factor.indices.len(),
            info_valid(info@),
            forall|x: int|
                0 <= x < k ==> has_id(fixed@, #[trigger] factor.indices@[x]) || has_id(
                    sums@,
                    factor.indices@[x],
                ),
        decreases factor.indices.len() - k,
    {
        let index = factor.indices[k];
        if !contains_id(fixed, index) && !contains_id(sums, index) {
            assert(factor@.indices[k as int] == index);
            return Some(CanonError::UnknownIndex { index });
        }
        k = k + 1;
    }
    None
}


// ----------------------------------------------------------------------------
// Symmetry groups
// ----------------------------------------------------------------------------

/// The scalar action of two symmetries applied in turn.
pub open spec fn combined(left: SymmetryAction, right: SymmetryAction) -> SymmetryAction {
    if left == right {
        SymmetryAction::Identity
    } else {
        SymmetryAction::Negate
    }
}

pub fn combine(left: SymmetryAction, right: SymmetryAction) -> (r: SymmetryAction)
    ensures
        r == combined(left, right),
{
    match (left, right) {
        (SymmetryAction::Identity, action) => action,
        (action, SymmetryAction::Identity) => action,
        (SymmetryAction::Negate, SymmetryAction::Negate) => SymmetryAction::Identity,
    }
}

/// Compose two preimage permutations, applying `left` and then `right`.
pub fn compose(left: &Vec<usize>, right: &Vec<usize>) -> (r: Vec<usize>)
    requires
        forall|k: int| 0 <= k < right.len() ==> #[trigger] right@[k] < left.len(),
    ensures
        r@.len() == right@.len(),
        forall|k: int| 0 <= k < right.len() ==> #[trigger] r@[k] == left@[right@[k] as int],
{
    let mut r: Vec<usize> = Vec::new();
    let mut k: usize = 0;
    while k < right.len()
        invariant
            k <= right.len(),
            r@.len() == k,
            forall|j: int| 0 <= j < right.len() ==> #[trigger] right@[j] < left.len(),
            forall|j: int| 0 <= j < k ==> #[trigger] r@[j] == left@[right@[j] as int],
        decreases right.len() - k,
    {
        r.push(left[right[k]]);
        k = k + 1;
    }
    r
}

/// `indices` rearranged so that slot `k` holds `indices[perm[k]]`.
fn permute_indices(indices: &Vec<IndexId>, perm: &Vec<usize>) -> (r: Vec<IndexId>)
    requires
        forall|k: int| 0 <= k < perm.len() ==> #[trigger] perm@[k] < indices.len(),
    ensures
        r@.len() == perm@.len(),
        forall|k: int| 0 <= k < perm.len() ==> #[trigger] r@[k] == indices@[perm@[k] as int],
{
    let mut r: Vec<IndexId> = Vec::new();
    let mut k: usize = 0;
    while k < perm.len()
        invariant
            k <= perm.len(),
            r@.len() == k,
            forall|j: int| 0 <= j < perm.len() ==> #[trigger] perm@[j] < indices.len(),
            forall|j: int| 0 <= j < k ==> #[trigger] r@[j] == indices@[perm@[j] as int],
        decreases perm.len() - k,
    {
        r.push(indices[perm[k]]);
        k = k + 1;
    }
    r
}

fn same_usizes(a: &Vec<usize>, b: &Vec<usize>) -> (r: bool)
    ensures
        r == (a@ == b@),
{
    if a.len() != b.len() {
        return false;
    }
    let mut k: usize = 0;
    while k < a.len()
        invariant
            k <= a.len() == b.len(),
            forall|j: int| 0 <= j < k ==> a@[j] == b@[j],
        decreases a.len() - k,
    {
        if a[k] != b[k] {
            return false;
        }
        k = k + 1;
    }
    assert(a@ =~= b@);
    true
}

/// Exact equality of two factor occurrences.
pub fn same_factor(a: &TensorRef, b: &TensorRef) -> (r: bool)
    ensures
        r == (a@ == b@),
{
    if a.tensor != b.tensor || a.indices.len() != b.indices.len() {
        return false;
    }
    let mut k: usize = 0;
    while k < a.indices.len()
        invariant
            k <= a.indices.len() == b.indices.len(),
            forall|j: int| 0 <= j < k ==> a.indices@[j] == b.indices@[j],
        decreases a.indices.len() - k,
    {
        if a.indices[k] != b.indices[k] {
            return false;
        }
        k = k + 1;
    }
    assert(a.indices@ =~= b.indices@);
    true
}

type GroupElement = (Vec<usize>, SymmetryAction);

/// `right` followed by `left`: slot `k` takes `left[right[k]]`.
pub open spec fn composed(left: Seq<usize>, right: Seq<usize>) -> Seq<usize> {
    Seq::new(right.len(), |k: int| left[right[k] as int])
}

/// The identity permutation of `0..rank`.
pub open spec fn identity_of(rank: nat) -> Seq<usize> {
    Seq::new(rank, |k: int| k as usize)
}

/// A set of permutations with actions that composing with any generator
/// does not leave.
pub open spec fn closed_under(
    s: Set<(Seq<usize>, SymmetryAction)>,
    generators: Seq<crate::repr::GeneratorView>,
) -> bool {
    forall|e: (Seq<usize>, SymmetryAction), g: int|
        #![trigger s.contains(e), generators[g]]
        s.contains(e) && 0 <= g < generators.len() ==> s.contains(
            (composed(e.0, generators[g].perm), combined(e.1, generators[g].action)),
        )
}

/// `e` lies in the group that the generators generate: every set that holds
/// the identity and is closed under the generators holds `e`.
pub open spec fn generated(
    e: (Seq<usize>, SymmetryAction),
    rank: nat,
    generators: Seq<crate::repr::GeneratorView>,
) -> bool {
    forall|s: Set<(Seq<usize>, SymmetryAction)>|
        #[trigger] closed_under(s, generators) && s.contains((identity_of(rank), SymmetryAction::Identity))
            ==> s.contains(e)
}

/// A factor rearranged by a group element: slot `k` takes the index of
/// slot `e.0[k]`, with the element's action.
pub open spec fn variant_of(factor: TensorRefView, e: (Seq<usize>, SymmetryAction)) -> (TensorRefView, SymmetryAction) {
    (TensorRefView { tensor: factor.tensor, indices: Seq::new(e.0.len(), |k: int| factor.indices[e.0[k] as int]) }, e.1)
}

/// `x` is the factor rearranged by some element of the generated group.
pub open spec fn is_variant(
    factor: TensorRefView,
    rank: nat,
    generators: Seq<crate::repr::GeneratorView>,
    x: (TensorRefView, SymmetryAction),
) -> bool {
    exists|e: (Seq<usize>, SymmetryAction)| #[trigger] generated(e, rank, generators) && x == variant_of(factor, e)
}

/// `x` is the factor rearranged by one of the first `upto` elements.
spec fn variant_among(
    factor: TensorRefView,
    group: Seq<(Seq<usize>, SymmetryAction)>,
    upto: int,
    x: (TensorRefView, SymmetryAction),
) -> bool {
    exists|k: int| 0 <= k < upto && x == variant_of(factor, #[trigger] group[k])
}

/// The views of a list of factor variants.
pub open spec fn variants_view(r: Seq<(TensorRef, SymmetryAction)>) -> Seq<(TensorRefView, SymmetryAction)> {
    r.map_values(|v: (TensorRef, SymmetryAction)| (v.0@, v.1))
}

/// The views of a list of generators.
pub open spec fn generators_view(generators: Seq<SymmetryGenerator>) -> Seq<crate::repr::GeneratorView> {
    generators.map_values(|g: SymmetryGenerator| g@)
}

spec fn group_view(group: Seq<GroupElement>) -> Seq<(Seq<usize>, SymmetryAction)> {
    group.map_values(|e: GroupElement| (e.0@, e.1))
}

spec fn element_in_range(e: (Seq<usize>, SymmetryAction), rank: nat) -> bool {
    &&& e.0.len() == rank
    &&& forall|k: int| 0 <= k < rank ==> #[trigger] e.0[k] < rank
}

spec fn element_code(e: (Seq<usize>, SymmetryAction), rank: nat) -> int {
    2 * crate::count::digits_code(e.0, rank + 1) + if e.1 == SymmetryAction::Negate {
        1int
    } else {
        0int
    }
}

spec fn group_bound(rank: nat) -> int {
    2 * vstd::arithmetic::power::pow((rank + 1) as int, rank)
}

/// Distinct permutations of `0..rank` with their actions number at most
/// `group_bound(rank)`.
proof fn lemma_group_bound(g: Seq<(Seq<usize>, SymmetryAction)>, rank: nat)
    requires
        forall|k: int| 0 <= k < g.len() ==> element_in_range(#[trigger] g[k], rank),
        forall|a: int, b: int| 0 <= a < g.len() && 0 <= b < g.len() && a != b ==> g[a] != g[b],
    ensures
        g.len() <= group_bound(rank),
{
    let codes = g.map_values(|e: (Seq<usize>, SymmetryAction)| element_code(e, rank));
    let r = (rank + 1) as nat;
    assert forall|k: int| 0 <= k < codes.len() implies 0 <= #[trigger] codes[k] < group_bound(
        rank,
    ) by {
        let e = g[k];
        assert forall|j: int| 0 <= j < e.0.len() implies #[trigger] e.0[j] < r by {}
        crate::count::lemma_digits_code_bound(e.0, r);
    }
    assert(codes.no_duplicates()) by {
        assert forall|a: int, b: int|
            0 <= a < codes.len() && 0 <= b < codes.len() && a != b implies codes[a]
            != codes[b] by {
            if codes[a] == codes[b] {
                let x = crate::count::digits_code(g[a].0, r);
                let y = crate::count::digits_code(g[b].0, r);
                assert(x == y);
                assert forall|j: int| 0 <= j < g[a].0.len() implies #[trigger] g[a].0[j] < r by {}
                assert forall|j: int| 0 <= j < g[b].0.len() implies #[trigger] g[b].0[j] < r by {}
                crate::count::lemma_digits_code_injective(g[a].0, g[b].0, r);
                assert(g[a] == g[b]);
            }
        }
    }
    vstd::arithmetic::power::lemma_pow_positive(r as int, rank);
    crate::count::lemma_distinct_bounded(codes, group_bound(rank));
}

fn group_contains(group: &Vec<GroupElement>, perm: &Vec<usize>, action: SymmetryAction) -> (r:
    bool)
    ensures
        r == exists|k: int| 0 <= k < group.len() && #[trigger] group_view(group@)[k] == (perm@, action),
{
    let mut k: usize = 0;
    while k < group.len()
        invariant
            k <= group.len(),
            forall|j: int| 0 <= j < k ==> #[trigger] group_view(group@)[j] != (perm@, action),
        decreases group.len() - k,
    {
        if group[k].1 == action && same_usizes(&group[k].0, perm) {
            assert(group_view(group@)[k as int] == (perm@, action));
            return true;
        }
        assert(group_view(group@)[k as int] == (group@[k as int].0@, group@[k as int].1));
        k = k + 1;
    }
    false
}

fn identity_perm(rank: usize) -> (r: Vec<usize>)
    ensures
        r@.len() == rank,
        forall|k: int| 0 <= k < rank ==> #[trigger] r@[k] == k,
{
    let mut r: Vec<usize> = Vec::new();
    let mut k: usize = 0;
    while k < rank
        invariant
            k <= rank,
            r@.len() == k,
            forall|j: int| 0 <= j < k ==> #[trigger] r@[j] == j,
        decreases rank - k,
    {
        r.push(k);
        k = k + 1;
    }
    r
}

/// The closure of the identity under the declared generators.
#[verifier::spinoff_prover]
fn symmetry_group(rank: usize, generators: &[SymmetryGenerator]) -> (r: Vec<GroupElement>)
    requires
        forall|g: int| 0 <= g < generators.len() ==> perm_valid(#[trigger] generators@[g].perm@, rank as nat),
    ensures
        r@.len() >= 1,
        r@[0].0@.len() == rank,
        forall|k: int| 0 <= k < rank ==> r@[0].0@[k] == k,
        r@[0].1 == SymmetryAction::Identity,
        forall|k: int| 0 <= k < r.len() ==> element_in_range(#[trigger] group_view(r@)[k], rank as nat),
        forall|e: (Seq<usize>, SymmetryAction)|
            group_view(r@).contains(e) <==> #[trigger] generated(e, rank as nat, generators_view(generators@)),
        forall|a: int, b: int| 0 <= a < r.len() && 0 <= b < r.len() && a != b ==> group_view(r@)[a] != group_view(r@)[b],
{
    let ghost gens = generators_view(generators@);
    let mut group: Vec<GroupElement> = Vec::new();
    group.push((identity_perm(rank), SymmetryAction::Identity));
    let ghost bound = group_bound(rank as nat);
    proof {
        lemma_group_bound(group_view(group@), rank as nat);
        assert(group_view(group@)[0] == (identity_of(rank as nat), SymmetryAction::Identity)) by {
            assert(group@[0].0@ =~= identity_of(rank as nat));
        }
        assert forall|k: int| 0 <= k < group.len() implies #[trigger] generated(group_view(group@)[k], rank as nat, gens) by {}
    }
    let mut position: usize = 0;
    while position < group.len()
        invariant
            forall|g: int| 0 <= g < generators.len() ==> perm_valid(#[trigger] generators@[g].perm@, rank as nat),
            bound == group_bound(rank as nat),
            group@.len() >= 1,
            group@[0].0@.len() == rank,
            forall|k: int| 0 <= k < rank ==> group@[0].0@[k] == k,
            group@[0].1 == SymmetryAction::Identity,
            position <= group.len() <= bound,
            forall|k: int| 0 <= k < group.len() ==> element_in_range(#[trigger] group_view(group@)[k], rank as nat),
            forall|a: int, b: int|
                0 <= a < group.len() && 0 <= b < group.len() && a != b ==> group_view(group@)[a]
                    != group_view(group@)[b],
            gens == generators_view(generators@),
            group_view(group@)[0] == (identity_of(rank as nat), SymmetryAction::Identity),
            forall|k: int| 0 <= k < group.len() ==> #[trigger] generated(group_view(group@)[k], rank as nat, gens),
            forall|a: int, g: int|
                #![trigger group_view(group@)[a], gens[g]]
                0 <= a < position && 0 <= g < gens.len() ==> group_view(group@).contains(
                    (composed(group_view(group@)[a].0, gens[g].perm), combined(group_view(group@)[a].1, gens[g].action)),
                ),
        decreases bound - position,
    {
        let perm = group[position].0.clone();
        let action = group[position].1;
        assert(group_view(group@)[position as int] == (group@[position as int].0@, action));
        assert(perm@ =~= group@[position as int].0@);
        let mut g: usize = 0;
        while g < generators.len()
            invariant
                forall|g: int| 0 <= g < generators.len() ==> perm_valid(#[trigger] generators@[g].perm@, rank as nat),
                bound == group_bound(rank as nat),
                group@.len() >= 1,
                group@[0].0@.len() == rank,
                forall|k: int| 0 <= k < rank ==> group@[0].0@[k] == k,
                group@[0].1 == SymmetryAction::Identity,
                position < group.len() <= bound,
                element_in_range((perm@, action), rank as nat),
                g <= generators.len(),
                forall|k: int| 0 <= k < group.len() ==> element_in_range(#[trigger] group_view(group@)[k], rank as nat),
                forall|a: int, b: int|
                    0 <= a < group.len() && 0 <= b < group.len() && a != b ==> group_view(group@)[a]
                        != group_view(group@)[b],
                gens == generators_view(generators@),
                group_view(group@)[position as int] == (perm@, action),
                group_view(group@)[0] == (identity_of(rank as nat), SymmetryAction::Identity),
                forall|k: int| 0 <= k < group.len() ==> #[trigger] generated(group_view(group@)[k], rank as nat, gens),
                forall|a: int, h: int|
                    #![trigger group_view(group@)[a], gens[h]]
                    0 <= a < position && 0 <= h < gens.len() ==> group_view(group@).contains(
                        (composed(group_view(group@)[a].0, gens[h].perm), combined(group_view(group@)[a].1, gens[h].action)),
                    ),
                forall|h: int|
                    0 <= h < g ==> group_view(group@).contains(
                        (composed(perm@, #[trigger] gens[h].perm), combined(action, gens[h].action)),
                    ),
            decreases generators.len() - g,
        {
            let generator = &generators[g];
            assert(perm_valid(generator.perm@, rank as nat));
            let next = compose(&perm, &generator.perm);
            let next_action = combine(action, generator.action);
            proof {
                assert(gens[g as int] == generator@);
                assert(next@ =~= composed(perm@, gens[g as int].perm));
            }
            let ghost old_view = group_view(group@);
            if !group_contains(&group, &next, next_action) {
                group.push((next, next_action));
                proof {
                    assert(group_view(group@) =~= old_view.push((next@, next_action)));
                    assert(group_view(group@)[old_view.len() as int] == (next@, next_action));
                    assert(group_view(group@).contains((next@, next_action)));
                    lemma_group_bound(group_view(group@), rank as nat);
                    assert(generated((next@, next_action), rank as nat, gens)) by {
                        assert forall|st: Set<(Seq<usize>, SymmetryAction)>|
                            #[trigger] closed_under(st, gens) && st.contains((identity_of(rank as nat), SymmetryAction::Identity))
                            implies st.contains((next@, next_action)) by {
                            assert(generated(old_view[position as int], rank as nat, gens));
                            assert(st.contains((perm@, action)));
                        }
                    }
                }
            } else {
                proof {
                    let k = choose|k: int| 0 <= k < group.len() && #[trigger] group_view(group@)[k] == (next@, next_action);
                    assert(group_view(group@).contains((next@, next_action)));
                }
            }
            proof {
                assert forall|k: int| 0 <= k < group.len() implies #[trigger] generated(group_view(group@)[k], rank as nat, gens) by {
                    if k < old_view.len() {
                        assert(group_view(group@)[k] == old_view[k]);
                    }
                }
                assert forall|x: (Seq<usize>, SymmetryAction)| old_view.contains(x) implies group_view(group@).contains(x) by {
                    let k = choose|k: int| 0 <= k < old_view.len() && old_view[k] == x;
                    assert(group_view(group@)[k] == old_view[k]);
                }
                assert forall|a: int, h: int|
                    #![trigger group_view(group@)[a], gens[h]]
                    0 <= a < position && 0 <= h < gens.len() implies group_view(group@).contains(
                        (composed(group_view(group@)[a].0, gens[h].perm), combined(group_view(group@)[a].1, gens[h].action)),
                    ) by {
                    assert(group_view(group@)[a] == old_view[a]);
                    assert(old_view.contains(
                        (composed(old_view[a].0, gens[h].perm), combined(old_view[a].1, gens[h].action)),
                    ));
                }
                assert forall|h: int|
                    0 <= h < g + 1 implies group_view(group@).contains(
                        (composed(perm@, #[trigger] gens[h].perm), combined(action, gens[h].action)),
                    ) by {
                    if h < g {
                        assert(old_view.contains((composed(perm@, gens[h].perm), combined(action, gens[h].action))));
                    } else {
                        assert(next_action == combined(action, gens[h].action));
                        assert(next@ == composed(perm@, gens[h].perm));
                        assert(group_view(group@).contains((next@, next_action)));
                    }
                }
                assert(group_view(group@)[position as int] == old_view[position as int]);
                assert(group_view(group@)[0] == old_view[0]);
            }
            g = g + 1;
        }
        proof {
            assert forall|a: int, h: int|
                #![trigger group_view(group@)[a], gens[h]]
                0 <= a < position + 1 && 0 <= h < gens.len() implies group_view(group@).contains(
                    (composed(group_view(group@)[a].0, gens[h].perm), combined(group_view(group@)[a].1, gens[h].action)),
                ) by {
                if a == position {
                    assert(gens[h] == gens[h]);
                    assert(group_view(group@).contains((composed(perm@, gens[h].perm), combined(action, gens[h].action))));
                }
            }
        }
        position = position + 1;
    }
    proof {
        let st = group_view(group@).to_set();
        assert(st.contains((identity_of(rank as nat), SymmetryAction::Identity))) by {
            assert(group_view(group@).contains(group_view(group@)[0]));
        }
        assert(closed_under(st, gens)) by {
            assert forall|e: (Seq<usize>, SymmetryAction), h: int|
                st.contains(e) && 0 <= h < gens.len() implies st.contains(
                    (composed(e.0, gens[h].perm), combined(e.1, gens[h].action)),
                ) by {
                let a = choose|a: int| 0 <= a < group.len() && group_view(group@)[a] == e;
                assert(group_view(group@).contains(
                    (composed(group_view(group@)[a].0, gens[h].perm), combined(group_view(group@)[a].1, gens[h].action)),
                ));
            }
        }
        assert forall|e: (Seq<usize>, SymmetryAction)|
            group_view(group@).contains(e) <==> #[trigger] generated(e, rank as nat, gens) by {
            if group_view(group@).contains(e) {
                let k = choose|k: int| 0 <= k < group.len() && group_view(group@)[k] == e;
                assert(generated(group_view(group@)[k], rank as nat, gens));
            }
            if generated(e, rank as nat, gens) {
                assert(st.contains(e));
            }
        }
    }
    group
}

/// The distinct rearrangements of one factor under its symmetry group.
#[verifier::loop_isolation(false)]
#[verifier::spinoff_prover]
pub fn factor_variants(factor: &TensorRef, rank: usize, generators: &[SymmetryGenerator]) -> (r: Vec<
    (TensorRef, SymmetryAction),
>)
    requires
        factor.indices.len() == rank,
        forall|g: int| 0 <= g < generators.len() ==> perm_valid(#[trigger] generators@[g].perm@, rank as nat),
    ensures
        r@.len() >= 1,
        r@[0].0@ == factor@,
        r@[0].1 == SymmetryAction::Identity,
        forall|v: int| 0 <= v < r.len() ==> rearranges(#[trigger] r@[v].0@, factor@),
        forall|v: int|
            0 <= v < r.len() ==> is_variant(factor@, rank as nat, generators_view(generators@), #[trigger] variants_view(r@)[v]),
        forall|e: (Seq<usize>, SymmetryAction)|
            #[trigger] generated(e, rank as nat, generators_view(generators@)) ==> variants_view(r@).contains(variant_of(factor@, e)),
        variants_view(r@).no_duplicates(),
{
    let group = symmetry_group(rank, generators);
    let ghost gens = generators_view(generators@);
    let mut variants: Vec<(TensorRef, SymmetryAction)> = Vec::new();
    let mut position: usize = 0;
    while position < group.len()
        invariant
            factor.indices.len() == rank,
            position <= group.len(),
            group@.len() >= 1,
            group@[0].0@.len() == rank,
            forall|k: int| 0 <= k < rank ==> group@[0].0@[k] == k,
            group@[0].1 == SymmetryAction::Identity,
            forall|k: int| 0 <= k < group.len() ==> element_in_range(#[trigger] group_view(group@)[k], rank as nat),
            position == 0 ==> variants@.len() == 0,
            position > 0 ==> variants@.len() >= 1 && variants@[0].0@ == factor@ && variants@[0].1
                == SymmetryAction::Identity,
            forall|v: int| 0 <= v < variants.len() ==> rearranges(#[trigger] variants@[v].0@, factor@),
            gens == generators_view(generators@),
            forall|e: (Seq<usize>, SymmetryAction)| group_view(group@).contains(e) <==> #[trigger] generated(e, rank as nat, gens),
            forall|v: int|
                0 <= v < variants.len() ==> variant_among(factor@, group_view(group@), position as int, #[trigger] variants_view(variants@)[v]),
            forall|k: int| 0 <= k < position ==> variants_view(variants@).contains(variant_of(factor@, #[trigger] group_view(group@)[k])),
            variants_view(variants@).no_duplicates(),
        decreases group.len() - position,
    {
        let perm = &group[position].0;
        let action = group[position].1;
        assert(element_in_range(group_view(group@)[position as int], rank as nat));
        assert(group_view(group@)[position as int].0 == perm@);
        let indices = permute_indices(&factor.indices, perm);
        let variant = TensorRef { tensor: factor.tensor, indices };
        proof {
            if position == 0 {
                assert(indices@ =~= factor.indices@);
            }
            assert(variant@.indices =~= variant_of(factor@, group_view(group@)[position as int]).0.indices);
            assert((variant@, action) == variant_of(factor@, group_view(group@)[position as int]));
        }
        let mut seen = false;
        let mut k: usize = 0;
        while k < variants.len()
            invariant
                k <= variants.len(),
                variants@.len() == 0 ==> !seen,
                seen <==> exists|j: int| 0 <= j < k && #[trigger] variants_view(variants@)[j] == (variant@, action),
            decreases variants.len() - k,
        {
            if variants[k].1 == action && same_factor(&variants[k].0, &variant) {
                seen = true;
                assert(variants_view(variants@)[k as int] == (variant@, action));
            } else {
                assert(variants_view(variants@)[k as int] != (variant@, action));
            }
            k = k + 1;
        }
        let ghost before = variants_view(variants@);
        if !seen {
            variants.push((variant, action));
            proof {
                assert(variants_view(variants@) =~= before.push((variant@, action)));
            }
        } else {
            proof {
                let j = choose|j: int| 0 <= j < variants.len() && #[trigger] variants_view(variants@)[j] == (variant@, action);
                assert(before.contains((variant@, action)));
            }
        }
        proof {
            let now = variants_view(variants@);
            assert forall|v: int| 0 <= v < variants.len() implies variant_among(factor@, group_view(group@), position + 1, #[trigger] now[v]) by {
                if v < before.len() {
                    assert(now[v] == before[v]);
                    assert(variant_among(factor@, group_view(group@), position as int, before[v]));
                    let k = choose|k: int| 0 <= k < position && before[v] == variant_of(factor@, #[trigger] group_view(group@)[k]);
                    assert(now[v] == variant_of(factor@, group_view(group@)[k]));
                } else {
                    assert(now[v] == variant_of(factor@, group_view(group@)[position as int]));
                }
            }
            assert forall|k: int| 0 <= k < position + 1 implies now.contains(variant_of(factor@, #[trigger] group_view(group@)[k])) by {
                if k < position {
                    let x = variant_of(factor@, group_view(group@)[k]);
                    assert(before.contains(x));
                    let w = choose|w: int| 0 <= w < before.len() && before[w] == x;
                    assert(now[w] == before[w]);
                } else {
                    if !seen {
                        assert(now[before.len() as int] == (variant@, action));
                    }
                }
            }
        }
        position = position + 1;
    }
    proof {
        let now = variants_view(variants@);
        assert forall|v: int| 0 <= v < variants.len() implies is_variant(factor@, rank as nat, gens, #[trigger] now[v]) by {
            assert(variant_among(factor@, group_view(group@), position as int, now[v]));
            let k = choose|k: int| 0 <= k < position && now[v] == variant_of(factor@, #[trigger] group_view(group@)[k]);
            let e = group_view(group@)[k];
            assert(group_view(group@).contains(e));
            assert(generated(e, rank as nat, gens));
        }
        assert forall|e: (Seq<usize>, SymmetryAction)| #[trigger] generated(e, rank as nat, gens) implies now.contains(
            variant_of(factor@, e),
        ) by {
            assert(group_view(group@).contains(e));
            let k = choose|k: int| 0 <= k < group.len() && group_view(group@)[k] == e;
            assert(now.contains(variant_of(factor@, group_view(group@)[k])));
        }
    }
    variants
}

/// `variant` is `factor` with its index slots rearranged.
pub open spec fn rearranges(variant: TensorRefView, factor: TensorRefView) -> bool {
    &&& variant.tensor == factor.tensor
    &&& variant.indices.len() == factor.indices.len()
    &&& forall|k: int|
        0 <= k < variant.indices.len() ==> factor.indices.contains(#[trigger] variant.indices[k])
}


/// The actions combined in order.
pub open spec fn combined_all(actions: Seq<SymmetryAction>) -> SymmetryAction
    decreases actions.len(),
{
    if actions.len() == 0 {
        SymmetryAction::Identity
    } else {
        combined(combined_all(actions.drop_last()), actions.last())
    }
}

/// The symmetry that the computation declares for `tensor`.
pub open spec fn declared_symmetry(c: ComputationView, tensor: TensorId) -> crate::repr::TensorInfoView {
    lookup_tensor(c.tensors, tensor).unwrap()
}

/// One group element per factor, each generated by the symmetry declared
/// for the factor's tensor.
pub open spec fn elements_valid(
    c: ComputationView,
    factors: Seq<TensorRefView>,
    elements: Seq<(Seq<usize>, SymmetryAction)>,
) -> bool {
    &&& elements.len() == factors.len()
    &&& forall|k: int|
        0 <= k < factors.len() ==> #[trigger] generated(
            elements[k],
            declared_symmetry(c, factors[k].tensor).rank as nat,
            declared_symmetry(c, factors[k].tensor).symmetry,
        )
}

/// Each factor rearranged by its element, with the elements' combined action.
pub open spec fn variant_choice(
    factors: Seq<TensorRefView>,
    elements: Seq<(Seq<usize>, SymmetryAction)>,
) -> (Seq<TensorRefView>, SymmetryAction) {
    (
        Seq::new(factors.len(), |k: int| variant_of(factors[k], elements[k]).0),
        combined_all(Seq::new(elements.len(), |k: int| elements[k].1)),
    )
}

/// `x` rearranges each factor under its declared symmetry.
pub open spec fn is_variant_choice(
    c: ComputationView,
    factors: Seq<TensorRefView>,
    x: (Seq<TensorRefView>, SymmetryAction),
) -> bool {
    exists|elements: Seq<(Seq<usize>, SymmetryAction)>| #[trigger] elements_valid(c, factors, elements) && x == variant_choice(factors, elements)
}

/// The views of a list of factor lists with actions.
pub open spec fn choices_view(r: Seq<(Vec<TensorRef>, SymmetryAction)>) -> Seq<(Seq<TensorRefView>, SymmetryAction)> {
    r.map_values(|x: (Vec<TensorRef>, SymmetryAction)| (factors_view(x.0@), x.1))
}

/// Extending a choice by one factor's variant.
proof fn lemma_variant_choice_push(
    factors: Seq<TensorRefView>,
    elements: Seq<(Seq<usize>, SymmetryAction)>,
    factor: TensorRefView,
    e: (Seq<usize>, SymmetryAction),
)
    requires
        elements.len() == factors.len(),
    ensures
        variant_choice(factors.push(factor), elements.push(e)) == (
            variant_choice(factors, elements).0.push(variant_of(factor, e).0),
            combined(variant_choice(factors, elements).1, e.1),
        ),
{
    let grown = Seq::new(elements.push(e).len(), |k: int| elements.push(e)[k].1);
    assert(grown.drop_last() =~= Seq::new(elements.len(), |k: int| elements[k].1));
    assert(variant_choice(factors.push(factor), elements.push(e)).0 =~= variant_choice(factors, elements).0.push(
        variant_of(factor, e).0,
    ));
}

/// The rearrangements of a product of factors under the symmetry groups of
/// its factors, with the combined scalar action of each.
fn symmetry_variants(computation: &Computation, factors: &Vec<TensorRef>) -> (r: Vec<
    (Vec<TensorRef>, SymmetryAction),
>)
    requires
        forall|f: int|
            0 <= f < factors.len() ==> {
                let info = lookup_tensor(computation@.tensors, (#[trigger] factors@[f]).tensor);
                &&& info is Some
                &&& info.unwrap().rank == factors@[f].indices.len()
                &&& info_valid(info.unwrap())
            },
    ensures
        r@.len() >= 1,
        forall|v: int|
            0 <= v < r.len() ==> (#[trigger] r@[v]).0@.len() == factors@.len() && forall|k: int|
                0 <= k < factors.len() ==> rearranges(r@[v].0@[k]@, factors@[k]@),
        forall|v: int| 0 <= v < r.len() ==> is_variant_choice(computation@, factors_view(factors@), #[trigger] choices_view(r@)[v]),
        forall|elements: Seq<(Seq<usize>, SymmetryAction)>|
            #[trigger] elements_valid(computation@, factors_view(factors@), elements) ==> choices_view(r@).contains(
                variant_choice(factors_view(factors@), elements),
            ),
{
    let ghost fv = factors_view(factors@);
    let mut product: Vec<(Vec<TensorRef>, SymmetryAction)> = Vec::new();
    product.push((Vec::new(), SymmetryAction::Identity));
    proof {
        let pv = choices_view(product@);
        assert(fv.take(0) =~= Seq::<TensorRefView>::empty());
        let none = Seq::<(Seq<usize>, SymmetryAction)>::empty();
        assert(variant_choice(fv.take(0), none).0 =~= Seq::<TensorRefView>::empty());
        assert(variant_choice(fv.take(0), none).1 == SymmetryAction::Identity) by {
            assert(Seq::new(none.len(), |k: int| none[k].1) =~= Seq::<SymmetryAction>::empty());
        }
        assert(pv[0].0 =~= Seq::<TensorRefView>::empty());
        assert(pv[0] == variant_choice(fv.take(0), none));
        assert(elements_valid(computation@, fv.take(0), none));
        assert forall|el: Seq<(Seq<usize>, SymmetryAction)>| #[trigger] elements_valid(computation@, fv.take(0), el)
            implies pv.contains(variant_choice(fv.take(0), el)) by {
            assert(el =~= none);
        }
    }
    let mut f: usize = 0;
    while f < factors.len()
        invariant
            f <= factors.len(),
            fv == factors_view(factors@),
            forall|f: int|
                0 <= f < factors.len() ==> {
                    let info = lookup_tensor(computation@.tensors, (#[trigger] factors@[f]).tensor);
                    &&& info is Some
                    &&& info.unwrap().rank == factors@[f].indices.len()
                    &&& info_valid(info.unwrap())
                },
            product@.len() >= 1,
            forall|v: int|
                0 <= v < product.len() ==> (#[trigger] product@[v]).0@.len() == f && forall|k: int|
                    0 <= k < f ==> rearranges(product@[v].0@[k]@, factors@[k]@),
            forall|v: int| 0 <= v < product.len() ==> is_variant_choice(computation@, fv.take(f as int), #[trigger] choices_view(product@)[v]),
            forall|el: Seq<(Seq<usize>, SymmetryAction)>|
                #[trigger] elements_valid(computation@, fv.take(f as int), el) ==> choices_view(product@).contains(
                    variant_choice(fv.take(f as int), el),
                ),
        decreases factors.len() - f,
    {
        let factor = &factors[f];
        let position = match find_tensor(&computation.tensors, factor.tensor) {
            Some(position) => position,
            None => {
                proof {
                    assert(false);
                }
                return product;
            },
        };
        let info = &computation.tensors[position].1;
        assert(crate::repr::tensors_view(computation.tensors@)[position as int] == (factor.tensor, info@));
        assert forall|g: int| 0 <= g < info.symmetry.len() implies perm_valid(
            #[trigger] info.symmetry@[g].perm@,
            info.rank as nat,
        ) by {
            assert(info@.symmetry[g] == info.symmetry@[g]@);
        }
        let variants = factor_variants(factor, info.rank, info.symmetry.as_slice());
        let ghost fvf = fv[f as int];
        proof {
            assert(fvf == factor@);
            assert(declared_symmetry(computation@, fvf.tensor) == info@);
            assert(generators_view(info.symmetry@) =~= info@.symmetry);
        }
        let mut next: Vec<(Vec<TensorRef>, SymmetryAction)> = Vec::new();
        let mut p: usize = 0;
        while p < product.len()
            invariant
                p <= product.len(),
                f < factors.len(),
                fv == factors_view(factors@),
                fvf == fv[f as int],
                variants@.len() >= 1,
                forall|v: int| 0 <= v < variants.len() ==> rearranges(#[trigger] variants@[v].0@, factors@[f as int]@),
                forall|v: int|
                    0 <= v < product.len() ==> (#[trigger] product@[v]).0@.len() == f && forall|k: int|
                        0 <= k < f ==> rearranges(product@[v].0@[k]@, factors@[k]@),
                p > 0 ==> next@.len() >= 1,
                forall|v: int|
                    0 <= v < next.len() ==> (#[trigger] next@[v]).0@.len() == f + 1 && forall|k: int|
                        0 <= k < f + 1 ==> rearranges(next@[v].0@[k]@, factors@[k]@),
                forall|v: int| 0 <= v < product.len() ==> is_variant_choice(computation@, fv.take(f as int), #[trigger] choices_view(product@)[v]),
                forall|v: int|
                    0 <= v < variants.len() ==> is_variant(fvf, info.rank as nat, info@.symmetry, #[trigger] variants_view(variants@)[v]),
                forall|e: (Seq<usize>, SymmetryAction)|
                    #[trigger] generated(e, info.rank as nat, info@.symmetry) ==> variants_view(variants@).contains(variant_of(fvf, e)),
                declared_symmetry(computation@, fvf.tensor) == info@,
                forall|v: int| 0 <= v < next.len() ==> is_variant_choice(computation@, fv.take(f + 1), #[trigger] choices_view(next@)[v]),
                forall|a: int, b: int|
                    #![trigger choices_view(product@)[a], variants_view(variants@)[b]]
                    0 <= a < p && 0 <= b < variants.len() ==> choices_view(next@).contains(
                        (choices_view(product@)[a].0.push(variants_view(variants@)[b].0), combined(choices_view(product@)[a].1, variants_view(variants@)[b].1)),
                    ),
            decreases product.len() - p,
        {
            let mut q: usize = 0;
            while q < variants.len()
                invariant
                    p < product.len(),
                    q <= variants.len(),
                    f < factors.len(),
                    fv == factors_view(factors@),
                    fvf == fv[f as int],
                    forall|v: int| 0 <= v < variants.len() ==> rearranges(#[trigger] variants@[v].0@, factors@[f as int]@),
                    product@[p as int].0@.len() == f,
                    forall|k: int| 0 <= k < f ==> rearranges(product@[p as int].0@[k]@, factors@[k]@),
                    p > 0 || q > 0 ==> next@.len() >= 1,
                    forall|v: int|
                        0 <= v < next.len() ==> (#[trigger] next@[v]).0@.len() == f + 1 && forall|k: int|
                            0 <= k < f + 1 ==> rearranges(next@[v].0@[k]@, factors@[k]@),
                    is_variant_choice(computation@, fv.take(f as int), choices_view(product@)[p as int]),
                    forall|v: int|
                        0 <= v < variants.len() ==> is_variant(fvf, info.rank as nat, info@.symmetry, #[trigger] variants_view(variants@)[v]),
                    declared_symmetry(computation@, fvf.tensor) == info@,
                    forall|v: int| 0 <= v < next.len() ==> is_variant_choice(computation@, fv.take(f + 1), #[trigger] choices_view(next@)[v]),
                    forall|a: int, b: int|
                        #![trigger choices_view(product@)[a], variants_view(variants@)[b]]
                        0 <= a < p && 0 <= b < variants.len() ==> choices_view(next@).contains(
                            (choices_view(product@)[a].0.push(variants_view(variants@)[b].0), combined(choices_view(product@)[a].1, variants_view(variants@)[b].1)),
                        ),
                    forall|b: int|
                        0 <= b < q ==> choices_view(next@).contains(
                            (choices_view(product@)[p as int].0.push(#[trigger] variants_view(variants@)[b].0), combined(choices_view(product@)[p as int].1, variants_view(variants@)[b].1)),
                        ),
                decreases variants.len() - q,
            {
                let mut extended = product[p].0.clone();
                extended.push(variants[q].0.clone());
                proof {
                    assert forall|k: int| 0 <= k < f + 1 implies rearranges(extended@[k]@, factors@[k]@) by {
                        if k < f {
                            assert(extended@[k]@ == product@[p as int].0@[k]@);
                        }
                    }
                }
                let action = combine(product[p].1, variants[q].1);
                let ghost before = choices_view(next@);
                next.push((extended, action));
                proof {
                    let pv = choices_view(product@)[p as int];
                    let vv = variants_view(variants@)[q as int];
                    let x = (pv.0.push(vv.0), combined(pv.1, vv.1));
                    assert(factors_view(extended@) =~= pv.0.push(vv.0)) by {
                        assert(factors_view(product@[p as int].0@) == pv.0);
                    }
                    assert(choices_view(next@) =~= before.push(x));
                    assert(choices_view(next@)[before.len() as int] == x);
                    // The new entry is a choice over one more factor.
                    let el = choose|el: Seq<(Seq<usize>, SymmetryAction)>| #[trigger] elements_valid(computation@, fv.take(f as int), el)
                        && pv == variant_choice(fv.take(f as int), el);
                    let e = choose|e: (Seq<usize>, SymmetryAction)| #[trigger] generated(e, info.rank as nat, info@.symmetry) && vv == variant_of(fvf, e);
                    assert(fv.take(f + 1) =~= fv.take(f as int).push(fvf));
                    lemma_variant_choice_push(fv.take(f as int), el, fvf, e);
                    assert(elements_valid(computation@, fv.take(f + 1), el.push(e))) by {
                        assert forall|k: int| 0 <= k < f + 1 implies #[trigger] generated(
                            el.push(e)[k],
                            declared_symmetry(computation@, fv.take(f + 1)[k].tensor).rank as nat,
                            declared_symmetry(computation@, fv.take(f + 1)[k].tensor).symmetry,
                        ) by {
                            if k < f {
                                assert(el.push(e)[k] == el[k]);
                                assert(fv.take(f + 1)[k] == fv.take(f as int)[k]);
                            }
                        }
                    }
                    assert(x == variant_choice(fv.take(f + 1), el.push(e)));
                    assert forall|v: int| 0 <= v < next.len() implies is_variant_choice(computation@, fv.take(f + 1), #[trigger] choices_view(next@)[v]) by {
                        if v < before.len() {
                            assert(choices_view(next@)[v] == before[v]);
                        }
                    }
                    assert forall|a: int, b: int|
                        #![trigger choices_view(product@)[a], variants_view(variants@)[b]]
                        0 <= a < p && 0 <= b < variants.len() implies choices_view(next@).contains(
                            (choices_view(product@)[a].0.push(variants_view(variants@)[b].0), combined(choices_view(product@)[a].1, variants_view(variants@)[b].1)),
                        ) by {
                        let y = (choices_view(product@)[a].0.push(variants_view(variants@)[b].0), combined(choices_view(product@)[a].1, variants_view(variants@)[b].1));
                        assert(before.contains(y));
                        let w = choose|w: int| 0 <= w < before.len() && before[w] == y;
                        assert(choices_view(next@)[w] == y);
                    }
                    assert forall|b: int|
                        0 <= b < q + 1 implies choices_view(next@).contains(
                            (choices_view(product@)[p as int].0.push(#[trigger] variants_view(variants@)[b].0), combined(choices_view(product@)[p as int].1, variants_view(variants@)[b].1)),
                        ) by {
                        if b < q {
                            let y = (choices_view(product@)[p as int].0.push(variants_view(variants@)[b].0), combined(choices_view(product@)[p as int].1, variants_view(variants@)[b].1));
                            assert(before.contains(y));
                            let w = choose|w: int| 0 <= w < before.len() && before[w] == y;
                            assert(choices_view(next@)[w] == y);
                        }
                    }
                }
                q = q + 1;
            }
            p = p + 1;
        }
        proof {
            assert forall|el: Seq<(Seq<usize>, SymmetryAction)>|
                #[trigger] elements_valid(computation@, fv.take(f + 1), el) implies choices_view(next@).contains(
                    variant_choice(fv.take(f + 1), el),
                ) by {
                let head = el.take(f as int);
                let e = el[f as int];
                assert(el =~= head.push(e));
                assert(fv.take(f + 1) =~= fv.take(f as int).push(fvf));
                assert(elements_valid(computation@, fv.take(f as int), head)) by {
                    assert forall|k: int| 0 <= k < f implies #[trigger] generated(
                        head[k],
                        declared_symmetry(computation@, fv.take(f as int)[k].tensor).rank as nat,
                        declared_symmetry(computation@, fv.take(f as int)[k].tensor).symmetry,
                    ) by {
                        assert(head[k] == el[k]);
                        assert(fv.take(f + 1)[k] == fv.take(f as int)[k]);
                    }
                }
                assert(generated(e, info.rank as nat, info@.symmetry)) by {
                    assert(fv.take(f + 1)[f as int] == fvf);
                }
                lemma_variant_choice_push(fv.take(f as int), head, fvf, e);
                let pv = variant_choice(fv.take(f as int), head);
                assert(choices_view(product@).contains(pv));
                let a = choose|a: int| 0 <= a < product.len() && choices_view(product@)[a] == pv;
                assert(variants_view(variants@).contains(variant_of(fvf, e)));
                let b = choose|b: int| 0 <= b < variants.len() && variants_view(variants@)[b] == variant_of(fvf, e);
                assert(choices_view(next@).contains(
                    (choices_view(product@)[a].0.push(variants_view(variants@)[b].0), combined(choices_view(product@)[a].1, variants_view(variants@)[b].1)),
                ));
            }
        }
        product = next;
        f = f + 1;
    }
    proof {
        assert(fv.take(f as int) =~= fv);
    }
    product
}

// ----------------------------------------------------------------------------
// Factor orders
// ----------------------------------------------------------------------------

/// Positions listed in nondecreasing order of their tensors.
pub open spec fn sorted_by_tensor(tensors: Seq<TensorId>, order: Seq<usize>) -> bool {
    forall|a: int, b: int|
        0 <= a < b < order.len() ==> tensors[order[a] as int].0 <= tensors[order[b] as int].0
}

/// Positions of equal tensors keep their relative order.
pub open spec fn sorted_stably(tensors: Seq<TensorId>, order: Seq<usize>) -> bool {
    forall|a: int, b: int|
        0 <= a < b < order.len() && tensors[order[a] as int] == tensors[order[b] as int] ==> order[a] < order[b]
}

/// Two stable sorts of the positions agree below `upto`.
proof fn lemma_stable_sorts_agree(tensors: Seq<TensorId>, s: Seq<usize>, t: Seq<usize>, upto: int)
    requires
        perm_valid(s, tensors.len() as nat),
        perm_valid(t, tensors.len() as nat),
        sorted_by_tensor(tensors, s),
        sorted_by_tensor(tensors, t),
        sorted_stably(tensors, s),
        sorted_stably(tensors, t),
        0 <= upto <= tensors.len(),
    ensures
        forall|k: int| 0 <= k < upto ==> s[k] == t[k],
    decreases upto,
{
    if upto > 0 {
        let k = upto - 1;
        lemma_stable_sorts_agree(tensors, s, t, k);
        if s[k] != t[k] {
            let n = tensors.len() as nat;
            let x = s[k];
            let y = t[k];
            crate::count::lemma_perm_onto(t, n, x as int);
            let m = choose|m: int| 0 <= m < n && #[trigger] t[m] == x;
            crate::count::lemma_perm_onto(s, n, y as int);
            let w = choose|w: int| 0 <= w < n && #[trigger] s[w] == y;
            if m < k {
                assert(s[m] == t[m]);
            }
            if w < k {
                assert(t[w] == s[w]);
            }
            assert(m > k && w > k);
            assert(tensors[x as int].0 <= tensors[y as int].0);
            assert(tensors[y as int].0 <= tensors[x as int].0);
            assert(tensors[x as int] == tensors[y as int]);
            assert(x < y);
            assert(y < x);
        }
    }
}

/// The stable sort of the positions by tensor is unique.
pub proof fn lemma_stable_sort_unique(tensors: Seq<TensorId>, s: Seq<usize>, t: Seq<usize>)
    requires
        perm_valid(s, tensors.len() as nat),
        perm_valid(t, tensors.len() as nat),
        sorted_by_tensor(tensors, s),
        sorted_by_tensor(tensors, t),
        sorted_stably(tensors, s),
        sorted_stably(tensors, t),
    ensures
        s == t,
{
    lemma_stable_sorts_agree(tensors, s, t, tensors.len() as int);
    assert(s =~= t);
}

/// The positions `0..n` sorted stably by tensor.
fn sort_positions(tensors: &Vec<TensorId>) -> (r: Vec<usize>)
    ensures
        perm_valid(r@, tensors.len() as nat),
        sorted_by_tensor(tensors@, r@),
        sorted_stably(tensors@, r@),
{
    let mut order: Vec<usize> = Vec::new();
    let mut i: usize = 0;
    while i < tensors.len()
        invariant
            i <= tensors.len(),
            order@.len() == i,
            forall|k: int| 0 <= k < i ==> #[trigger] order@[k] < i,
            forall|a: int, b: int| 0 <= a < i && 0 <= b < i && a != b ==> #[trigger] order@[a] != #[trigger] order@[b],
            sorted_by_tensor(tensors@, order@),
            sorted_stably(tensors@, order@),
        decreases tensors.len() - i,
    {
        let key = tensors[i].0;
        let mut at: usize = 0;
        while at < order.len() && tensors[order[at]].0 <= key
            invariant
                at <= order.len() == i,
                i < tensors.len(),
                forall|k: int| 0 <= k < i ==> #[trigger] order@[k] < i,
                forall|a: int| 0 <= a < at ==> tensors@[order@[a] as int].0 <= key,
            decreases order.len() - at,
        {
            at = at + 1;
        }
        let ghost old_order = order@;
        order.insert(at, i);
        proof {
            assert(order@ =~= old_order.insert(at as int, i));
            assert forall|a: int, b: int| 0 <= a < b < order@.len() implies tensors@[order@[a] as int].0
                <= tensors@[order@[b] as int].0 by {
                if b < at {
                } else if a < at && b == at {
                } else if a < at {
                    assert(order@[b] == old_order[b - 1]);
                } else if a == at {
                    assert(order@[b] == old_order[b - 1]);
                    assert(tensors@[old_order[at as int] as int].0 > key);
                    if b - 1 > at {
                        assert(tensors@[old_order[at as int] as int].0 <= tensors@[old_order[b - 1] as int].0);
                    }
                } else {
                    assert(order@[a] == old_order[a - 1]);
                    assert(order@[b] == old_order[b - 1]);
                }
            }
            assert forall|a: int, b: int| 0 <= a < i + 1 && 0 <= b < i + 1 && a != b implies #[trigger] order@[a]
                != #[trigger] order@[b] by {
                if a != at && b != at {
                    let oa = if a < at { a } else { a - 1 };
                    let ob = if b < at { b } else { b - 1 };
                    assert(order@[a] == old_order[oa]);
                    assert(order@[b] == old_order[ob]);
                } else if a == at {
                    let ob = if b < at { b } else { b - 1 };
                    assert(order@[b] == old_order[ob]);
                } else {
                    let oa = if a < at { a } else { a - 1 };
                    assert(order@[a] == old_order[oa]);
                }
            }
            assert forall|k: int| 0 <= k < i + 1 implies #[trigger] order@[k] < i + 1 by {
                if k < at {
                } else if k > at {
                    assert(order@[k] == old_order[k - 1]);
                }
            }
            assert forall|a: int, b: int|
                0 <= a < b < order@.len() && tensors@[order@[a] as int] == tensors@[order@[b] as int] implies order@[a]
                    < order@[b] by {
                if b < at {
                } else if b == at {
                    assert(order@[a] == old_order[a]);
                } else if a == at {
                    assert(order@[b] == old_order[b - 1]);
                    assert(tensors@[old_order[at as int] as int].0 > key);
                    if b - 1 > at {
                        assert(tensors@[old_order[at as int] as int].0 <= tensors@[old_order[b - 1] as int].0);
                    }
                } else if a < at {
                    assert(order@[b] == old_order[b - 1]);
                } else {
                    assert(order@[a] == old_order[a - 1]);
                    assert(order@[b] == old_order[b - 1]);
                }
            }
        }
        i = i + 1;
    }
    order
}

pub fn swap_positions(v: &mut Vec<usize>, a: usize, b: usize)
    requires
        a < old(v).len(),
        b < old(v).len(),
    ensures
        final(v)@ == old(v)@.update(a as int, old(v)@[b as int]).update(b as int, old(v)@[a as int]),
{
    let x = v[a];
    let y = v[b];
    v.set(a, y);
    v.set(b, x);
}

/// The entries of a list of orders.
pub open spec fn order_views(result: Seq<Vec<usize>>) -> Seq<Seq<usize>> {
    result.map_values(|v: Vec<usize>| v@)
}

/// The orders listed from `current` on, in listing order: at `position`,
/// each entry from `position` on that holds the same tensor as `position`
/// is swapped into `position` in turn, and the rest is ordered from
/// `position + 1`.
pub open spec fn orders_from(tensors: Seq<TensorId>, position: int, current: Seq<usize>) -> Seq<Seq<usize>>
    decreases current.len() - position, current.len() + 1,
{
    if position < 0 || position >= current.len() {
        seq![current]
    } else {
        orders_branching(tensors, position, current, position)
    }
}

/// The orders listed from `position` on for the swaps of `position` with the
/// entries from `next` on.
pub open spec fn orders_branching(tensors: Seq<TensorId>, position: int, current: Seq<usize>, next: int) -> Seq<
    Seq<usize>,
>
    decreases current.len() - position, current.len() - next,
{
    if position < 0 || position >= current.len() || next < position || next >= current.len() {
        Seq::empty()
    } else {
        (if tensors[current[next] as int] == tensors[current[position] as int] {
            orders_from(
                tensors,
                position + 1,
                current.update(position, current[next]).update(next, current[position]),
            )
        } else {
            Seq::empty()
        }) + orders_branching(tensors, position, current, next + 1)
    }
}

/// Push every order that permutes the entries from `position` on among
/// equal tensors.
fn generate_orders(
    tensors: &Vec<TensorId>,
    position: usize,
    current: &mut Vec<usize>,
    result: &mut Vec<Vec<usize>>,
)
    requires
        position <= old(current).len() == tensors.len(),
        perm_valid(old(current)@, tensors.len() as nat),
        sorted_by_tensor(tensors@, old(current)@),
    ensures
        final(current)@ == old(current)@,
        final(result)@.len() > old(result)@.len(),
        forall|k: int| 0 <= k < old(result)@.len() ==> final(result)@[k] == old(result)@[k],
        forall|k: int|
            old(result)@.len() <= k < final(result)@.len() ==> perm_valid(
                #[trigger] final(result)@[k]@,
                tensors.len() as nat,
            ) && sorted_by_tensor(tensors@, final(result)@[k]@),
        forall|q: Seq<usize>|
            #[trigger] perm_valid(q, tensors.len() as nat) && sorted_by_tensor(tensors@, q) && agrees_below(
                q,
                old(current)@,
                position as int,
            ) ==> produced(final(result)@, old(result)@.len() as int, q),
        forall|k: int|
            old(result)@.len() <= k < final(result)@.len() ==> agrees_below(
                #[trigger] final(result)@[k]@,
                old(current)@,
                position as int,
            ),
        forall|a: int, b: int|
            old(result)@.len() <= a < b < final(result)@.len() ==> #[trigger] final(result)@[a]@
                != #[trigger] final(result)@[b]@,
        order_views(final(result)@) == order_views(old(result)@) + orders_from(tensors@, position as int, old(current)@),
    decreases tensors.len() - position,
{
    if position == current.len() {
        let copy = current.clone();
        assert(copy@ =~= current@);
        let ghost before = result@;
        result.push(copy);
        assert(order_views(result@) =~= order_views(before) + seq![current@]);
        proof {
            assert forall|q: Seq<usize>|
                #[trigger] perm_valid(q, tensors.len() as nat) && sorted_by_tensor(tensors@, q) && agrees_below(
                    q,
                    current@,
                    position as int,
                ) implies produced(result@, before.len() as int, q) by {
                assert(q =~= current@);
                assert(result@[before.len() as int]@ == q);
            }
        }
        return;
    }
    let ghost original = current@;
    let ghost start = result@;
    let tensor = tensors[current[position]];
    let mut next: usize = position;
    while next < current.len()
        invariant
            position <= next <= current.len() == tensors.len(),
            position < tensors.len(),
            current@ == original,
            perm_valid(original, tensors.len() as nat),
            sorted_by_tensor(tensors@, original),
            tensor == tensors@[original[position as int] as int],
            next > position ==> result@.len() > start.len(),
            result@.len() >= start.len(),
            forall|k: int| 0 <= k < start.len() ==> result@[k] == start[k],
            forall|k: int|
                start.len() <= k < result@.len() ==> perm_valid(#[trigger] result@[k]@, tensors.len() as nat)
                    && sorted_by_tensor(tensors@, result@[k]@),
            forall|q: Seq<usize>|
                #[trigger] perm_valid(q, tensors.len() as nat) && sorted_by_tensor(tensors@, q) && agrees_below(
                    q,
                    original,
                    position as int,
                ) && (exists|m: int| position <= m < next && #[trigger] original[m] == q[position as int]) ==> produced(
                    result@,
                    start.len() as int,
                    q,
                ),
            forall|k: int| start.len() <= k < result@.len() ==> agrees_below(#[trigger] result@[k]@, original, position as int),
            forall|k: int| start.len() <= k < result@.len() ==> exists|m: int|
                position <= m < next && (#[trigger] result@[k])@[position as int] == original[m],
            forall|k: int| start.len() <= k < result@.len() ==> (#[trigger] result@[k])@.len() == tensors.len(),
            forall|a: int, b: int| start.len() <= a < b < result@.len() ==> #[trigger] result@[a]@ != #[trigger] result@[b]@,
            order_views(result@) + orders_branching(tensors@, position as int, original, next as int) == order_views(start)
                + orders_branching(tensors@, position as int, original, position as int),
        decreases current.len() - next,
    {
        let ghost before = result@;
        let ghost rest = orders_branching(tensors@, position as int, original, next + 1);
        if tensors[current[next]] == tensor {
            swap_positions(current, position, next);
            let ghost swapped = current@;
            proof {
                let swapped = current@;
                assert forall|x: int| 0 <= x < swapped.len() implies tensors@[swapped[x] as int] == tensors@[original[x] as int] by {
                    if x == position as int {
                    } else if x == next as int {
                    }
                }
                assert forall|a: int, b: int| 0 <= a < tensors.len() && 0 <= b < tensors.len() && a != b implies #[trigger] swapped[a] != #[trigger] swapped[b] by {
                    let oa = if a == position as int { next as int } else if a == next as int { position as int } else { a };
                    let ob = if b == position as int { next as int } else if b == next as int { position as int } else { b };
                    assert(swapped[a] == original[oa]);
                    assert(swapped[b] == original[ob]);
                }
                assert forall|k: int| 0 <= k < tensors.len() implies #[trigger] swapped[k] < tensors.len() by {
                    let ok = if k == position as int { next as int } else if k == next as int { position as int } else { k };
                    assert(swapped[k] == original[ok]);
                }
                assert forall|a: int, b: int| 0 <= a < b < swapped.len() implies tensors@[swapped[a] as int].0
                    <= tensors@[swapped[b] as int].0 by {
                    assert(tensors@[swapped[a] as int] == tensors@[original[a] as int]);
                    assert(tensors@[swapped[b] as int] == tensors@[original[b] as int]);
                }
            }
            generate_orders(tensors, position + 1, current, result);
            proof {
                assert forall|q: Seq<usize>|
                    #[trigger] perm_valid(q, tensors.len() as nat) && sorted_by_tensor(tensors@, q) && agrees_below(
                        q,
                        original,
                        position as int,
                    ) && (exists|m: int| position <= m < next + 1 && #[trigger] original[m] == q[position as int])
                    implies produced(result@, start.len() as int, q) by {
                    if exists|m: int| position <= m < next && #[trigger] original[m] == q[position as int] {
                        let k = choose|k: int| start.len() <= k < before.len() && #[trigger] before[k]@ == q;
                        assert(result@[k] == before[k]);
                    } else {
                        let m = choose|m: int| position <= m < next + 1 && #[trigger] original[m] == q[position as int];
                        assert(m == next);
                        assert(agrees_below(q, swapped, position + 1)) by {
                            assert forall|k: int| 0 <= k < position + 1 implies q[k] == swapped[k] by {
                                if k < position {
                                    assert(swapped[k] == original[k]);
                                } else {
                                    assert(swapped[k] == original[next as int]);
                                }
                            }
                        }
                        let k = choose|k: int| before.len() <= k < result@.len() && #[trigger] result@[k]@ == q;
                        assert(start.len() <= k);
                    }
                }
                assert forall|k: int| start.len() <= k < result@.len() implies agrees_below(#[trigger] result@[k]@, original, position as int)
                    && (exists|m: int| position <= m < next + 1 && (#[trigger] result@[k])@[position as int] == original[m])
                    && result@[k]@.len() == tensors.len() by {
                    if k < before.len() {
                        assert(result@[k] == before[k]);
                    } else {
                        assert(agrees_below(result@[k]@, swapped, position + 1));
                        assert forall|j: int| 0 <= j < position implies result@[k]@[j] == original[j] by {
                            assert(result@[k]@[j] == swapped[j]);
                            assert(swapped[j] == original[j]);
                        }
                        assert(result@[k]@[position as int] == swapped[position as int]);
                        assert(swapped[position as int] == original[next as int]);
                        assert(perm_valid(result@[k]@, tensors.len() as nat));
                    }
                }
                assert forall|a: int, b: int| start.len() <= a < b < result@.len() implies #[trigger] result@[a]@
                    != #[trigger] result@[b]@ by {
                    if b < before.len() {
                        assert(result@[a] == before[a] && result@[b] == before[b]);
                    } else if a >= before.len() {
                    } else {
                        assert(result@[a] == before[a]);
                        let m = choose|m: int| position <= m < next && (#[trigger] before[a])@[position as int] == original[m];
                        assert(agrees_below(result@[b]@, swapped, position + 1));
                        assert(result@[b]@[position as int] == original[next as int]);
                        assert(original[m] != original[next as int]);
                    }
                }
            }
            proof {
                assert(orders_branching(tensors@, position as int, original, next as int) == orders_from(
                    tensors@,
                    position + 1,
                    swapped,
                ) + rest);
                assert(order_views(result@) =~= order_views(before) + orders_from(tensors@, position + 1, swapped));
                assert(order_views(result@) + rest =~= order_views(before) + orders_branching(
                    tensors@,
                    position as int,
                    original,
                    next as int,
                ));
            }
            swap_positions(current, position, next);
            assert(current@ =~= original);
        } else {
            assert(orders_branching(tensors@, position as int, original, next as int) =~= rest);
            proof {
                assert forall|q: Seq<usize>|
                    #[trigger] perm_valid(q, tensors.len() as nat) && sorted_by_tensor(tensors@, q) && agrees_below(
                        q,
                        original,
                        position as int,
                    ) && (exists|m: int| position <= m < next + 1 && #[trigger] original[m] == q[position as int])
                    implies produced(result@, start.len() as int, q) by {
                    if !(exists|m: int| position <= m < next && #[trigger] original[m] == q[position as int]) {
                        let m = choose|m: int| position <= m < next + 1 && #[trigger] original[m] == q[position as int];
                        assert(m == next);
                        lemma_same_least_tensor(tensors@, original, q, position as int);
                    }
                }
            }
        }
        next = next + 1;
    }
    proof {
        assert(orders_branching(tensors@, position as int, original, next as int) =~= Seq::<Seq<usize>>::empty());
        assert(order_views(result@) =~= order_views(start) + orders_from(tensors@, position as int, original));
        assert forall|q: Seq<usize>|
            #[trigger] perm_valid(q, tensors.len() as nat) && sorted_by_tensor(tensors@, q) && agrees_below(
                q,
                original,
                position as int,
            ) implies produced(result@, start.len() as int, q) by {
            let n = tensors.len() as nat;
            crate::count::lemma_perm_onto(original, n, q[position as int] as int);
            let j = choose|j: int| 0 <= j < n && #[trigger] original[j] == q[position as int];
            if j < position {
                assert(q[j] == original[j]);
            }
            assert(original[j] == q[position as int]);
        }
    }
}

/// Two sorted permutations that agree below `position` place indices of the
/// same tensor at `position`.
proof fn lemma_same_least_tensor(tensors: Seq<TensorId>, p: Seq<usize>, q: Seq<usize>, position: int)
    requires
        perm_valid(p, tensors.len() as nat),
        perm_valid(q, tensors.len() as nat),
        sorted_by_tensor(tensors, p),
        sorted_by_tensor(tensors, q),
        agrees_below(q, p, position),
        0 <= position < tensors.len(),
    ensures
        tensors[p[position] as int] == tensors[q[position] as int],
{
    let n = tensors.len() as nat;
    crate::count::lemma_perm_onto(p, n, q[position] as int);
    let m = choose|m: int| 0 <= m < n && #[trigger] p[m] == q[position];
    if m < position {
        assert(q[m] == p[m]);
    }
    assert(m >= position);
    crate::count::lemma_perm_onto(q, n, p[position] as int);
    let w = choose|w: int| 0 <= w < n && #[trigger] q[w] == p[position];
    if w < position {
        assert(q[w] == p[w]);
    }
    assert(w >= position);
    if m > position {
        assert(tensors[p[position] as int].0 <= tensors[p[m] as int].0);
    }
    if w > position {
        assert(tensors[q[position] as int].0 <= tensors[q[w] as int].0);
    }
    assert(tensors[p[position] as int].0 == tensors[q[position] as int].0);
}

/// Every arrangement of the factor positions in nondecreasing tensor order,
/// listed as [`orders_from`] lists them from the stable sort by tensor.
pub fn best_factor_orders(tensors: &Vec<TensorId>) -> (r: Vec<Vec<usize>>)
    ensures
        r@.len() >= 1,
        forall|k: int|
            0 <= k < r.len() ==> perm_valid(#[trigger] r@[k]@, tensors.len() as nat)
                && sorted_by_tensor(tensors@, r@[k]@),
        forall|q: Seq<usize>|
            #[trigger] perm_valid(q, tensors.len() as nat) && sorted_by_tensor(tensors@, q) ==> produced(r@, 0, q),
        forall|a: int, b: int| 0 <= a < b < r.len() ==> #[trigger] r@[a]@ != #[trigger] r@[b]@,
        forall|s: Seq<usize>|
            perm_valid(s, tensors.len() as nat) && sorted_by_tensor(tensors@, s) && sorted_stably(tensors@, s)
                ==> #[trigger] orders_from(tensors@, 0, s) == order_views(r@),
{
    let mut current = sort_positions(tensors);
    let ghost first = current@;
    let mut result: Vec<Vec<usize>> = Vec::new();
    generate_orders(tensors, 0, &mut current, &mut result);
    assert(order_views(result@) =~= orders_from(tensors@, 0, first)) by {
        assert(order_views(Seq::<Vec<usize>>::empty()) =~= Seq::<Seq<usize>>::empty());
    }
    proof {
        assert forall|s: Seq<usize>|
            perm_valid(s, tensors.len() as nat) && sorted_by_tensor(tensors@, s) && sorted_stably(tensors@, s)
                implies #[trigger] orders_from(tensors@, 0, s) == order_views(result@) by {
            lemma_stable_sort_unique(tensors@, s, first);
        }
    }
    result
}


// ----------------------------------------------------------------------------
// Summed index renaming
// ----------------------------------------------------------------------------

/// The first `count` identities, in increasing order, that no fixed index uses.
/// `ids` are the `count` smallest identities that `fixed` leaves free, in
/// increasing order.
pub open spec fn is_canonical_ids(fixed: Seq<Index>, count: nat, ids: Seq<IndexId>) -> bool {
    &&& ids.len() == count
    &&& forall|k: int| 0 <= k < count ==> !has_id(fixed, #[trigger] ids[k])
    &&& forall|a: int, b: int| 0 <= a < b < count ==> ids[a].0 < ids[b].0
    &&& count > 0 ==> forall|v: u32|
        v < ids[count - 1].0 && !has_id(fixed, IndexId(v)) ==> #[trigger] ids.contains(IndexId(v))
}

/// The `count` smallest identities that `fixed` leaves free, in increasing
/// order.
pub open spec fn canonical_ids(fixed: Seq<Index>, count: nat) -> Seq<IndexId> {
    choose|ids: Seq<IndexId>| is_canonical_ids(fixed, count, ids)
}

/// At most one list meets [`is_canonical_ids`].
pub proof fn lemma_canonical_ids_unique(fixed: Seq<Index>, count: nat, a: Seq<IndexId>, b: Seq<IndexId>)
    requires
        is_canonical_ids(fixed, count, a),
        is_canonical_ids(fixed, count, b),
    ensures
        a == b,
{
    lemma_canonical_ids_agree(fixed, count, a, b, count as int);
    assert(a =~= b);
}

/// The list that meets [`is_canonical_ids`] is [`canonical_ids`].
pub proof fn lemma_canonical_ids_is(fixed: Seq<Index>, count: nat, ids: Seq<IndexId>)
    requires
        is_canonical_ids(fixed, count, ids),
    ensures
        canonical_ids(fixed, count) == ids,
{
    lemma_canonical_ids_unique(fixed, count, ids, canonical_ids(fixed, count));
}

/// Two lists that meet [`is_canonical_ids`] agree on their first `upto` entries.
proof fn lemma_canonical_ids_agree(fixed: Seq<Index>, count: nat, a: Seq<IndexId>, b: Seq<IndexId>, upto: int)
    requires
        is_canonical_ids(fixed, count, a),
        is_canonical_ids(fixed, count, b),
        0 <= upto <= count,
    ensures
        forall|i: int| 0 <= i < upto ==> a[i] == b[i],
    decreases upto,
{
    if upto > 0 {
        let k = upto - 1;
        lemma_canonical_ids_agree(fixed, count, a, b, k);
        if a[k].0 < b[k].0 {
            lemma_canonical_ids_below(fixed, count, a, b, k);
        } else if b[k].0 < a[k].0 {
            lemma_canonical_ids_below(fixed, count, b, a, k);
        }
    }
}

/// Where two canonical lists agree below `k`, the entry of `a` at `k` is not
/// below that of `b`.
proof fn lemma_canonical_ids_below(fixed: Seq<Index>, count: nat, a: Seq<IndexId>, b: Seq<IndexId>, k: int)
    requires
        is_canonical_ids(fixed, count, a),
        is_canonical_ids(fixed, count, b),
        0 <= k < count,
        forall|i: int| 0 <= i < k ==> a[i] == b[i],
    ensures
        !(a[k].0 < b[k].0),
{
    if a[k].0 < b[k].0 {
        let v = a[k].0;
        assert(!has_id(fixed, a[k]));
        if k < count - 1 {
            assert(b[k].0 < b[count - 1].0);
        }
        assert(v < b[count - 1].0);
        assert(IndexId(v) == a[k]);
        assert(b.contains(IndexId(v)));
        let p = choose|p: int| 0 <= p < b.len() && b[p] == IndexId(v);
        if p < k {
            assert(a[p] == b[p]);
            assert(a[p].0 < a[k].0);
        } else if p > k {
            assert(b[k].0 < b[p].0);
        }
    }
}

/// Fewer identities than `count` lie outside `fixed`.
#[verifier::opaque]
pub open spec fn ids_short(fixed: Seq<Index>, count: int) -> bool {
    exists|free: Seq<IndexId>|
        free.len() < count && forall|v: u32| !has_id(fixed, IndexId(v)) ==> #[trigger] free.contains(IndexId(v))
}

pub fn canonical_sum_ids(fixed: &[Index], count: usize) -> (r: Result<Vec<IndexId>, CanonError>)
    ensures
        r matches Ok(ids) ==> {
            &&& ids@.len() == count
            &&& forall|k: int| 0 <= k < count ==> !has_id(fixed@, #[trigger] ids@[k])
            &&& forall|a: int, b: int| 0 <= a < b < count ==> ids@[a].0 < ids@[b].0
            &&& count > 0 ==> forall|v: u32|
                v < ids@[count - 1].0 && !has_id(fixed@, IndexId(v)) ==> #[trigger] ids@.contains(IndexId(v))
        },
        r matches Ok(ids) ==> ids@ == canonical_ids(fixed@, count as nat),
        r matches Err(e) ==> e == CanonError::ExhaustedIndexIds && exists|free: Seq<IndexId>|
            free.len() < count && forall|v: u32| !has_id(fixed@, IndexId(v)) ==> #[trigger] free.contains(IndexId(v)),
{
    let mut ids: Vec<IndexId> = Vec::new();
    if count == 0 {
        proof {
            lemma_canonical_ids_is(fixed@, count as nat, ids@);
        }
        return Ok(ids);
    }
    let mut value: u64 = 0;
    while value <= 0xffff_ffff
        invariant
            count > 0,
            ids@.len() < count,
            value <= 0x1_0000_0000,
            forall|k: int| 0 <= k < ids@.len() ==> !has_id(fixed@, #[trigger] ids@[k]),
            forall|k: int| 0 <= k < ids@.len() ==> (#[trigger] ids@[k]).0 < value,
            forall|a: int, b: int| 0 <= a < b < ids@.len() ==> ids@[a].0 < ids@[b].0,
            forall|v: u32| v < value && !has_id(fixed@, IndexId(v)) ==> #[trigger] ids@.contains(IndexId(v)),
        decreases 0x1_0000_0000 - value,
    {
        let id = IndexId(value as u32);
        if !contains_id(fixed, id) {
            let ghost before = ids@;
            ids.push(id);
            proof {
                assert forall|v: u32| v < value + 1 && !has_id(fixed@, IndexId(v)) implies #[trigger] ids@.contains(IndexId(v)) by {
                    if v < value {
                        assert(before.contains(IndexId(v)));
                        let j = choose|j: int| 0 <= j < before.len() && before[j] == IndexId(v);
                        assert(ids@[j] == IndexId(v));
                    } else {
                        assert(ids@[ids.len() - 1] == IndexId(v));
                    }
                }
            }
            if ids.len() == count {
                proof {
                    lemma_canonical_ids_is(fixed@, count as nat, ids@);
                }
                return Ok(ids);
            }
        } else {
            proof {
                assert forall|v: u32| v < value + 1 && !has_id(fixed@, IndexId(v)) implies #[trigger] ids@.contains(IndexId(v)) by {
                    if v == value {
                        assert(has_id(fixed@, IndexId(v)));
                    }
                }
            }
        }
        value = value + 1;
    }
    assert forall|v: u32| !has_id(fixed@, IndexId(v)) implies #[trigger] ids@.contains(IndexId(v)) by {
        assert(v < value);
    }
    Err(CanonError::ExhaustedIndexIds)
}

/// The position of the summed index with identity `id`.
fn sum_position(sums: &Vec<Index>, id: IndexId) -> (r: Option<usize>)
    ensures
        r matches Some(p) ==> p < sums.len() && sums@[p as int].id == id,
        r is None ==> !has_id(sums@, id),
{
    let mut p: usize = 0;
    while p < sums.len()
        invariant
            p <= sums.len(),
            forall|k: int| 0 <= k < p ==> (#[trigger] sums@[k]).id != id,
        decreases sums.len() - p,
    {
        if sums[p].id == id {
            return Some(p);
        }
        p = p + 1;
    }
    None
}

fn renamed_position(renamed: &Vec<(IndexId, IndexId)>, original: IndexId) -> (r: Option<usize>)
    ensures
        r matches Some(j) ==> j < renamed.len() && renamed@[j as int].0 == original,
        r is None ==> forall|j: int| 0 <= j < renamed.len() ==> (#[trigger] renamed@[j]).0 != original,
{
    let mut j: usize = 0;
    while j < renamed.len()
        invariant
            j <= renamed.len(),
            forall|k: int| 0 <= k < j ==> (#[trigger] renamed@[k]).0 != original,
        decreases renamed.len() - j,
    {
        if renamed[j].0 == original {
            return Some(j);
        }
        j = j + 1;
    }
    None
}

/// Whether an index with range `range` occurs in `indices`.
pub open spec fn has_range(indices: Seq<Index>, range: crate::repr::RangeId) -> bool {
    exists|k: int| 0 <= k < indices.len() && (#[trigger] indices[k]).range == range
}

/// What renaming the summed indices of `term` into `renamed` guarantees.
pub open spec fn renames_sums(fixed: Seq<Index>, term: TermView, renamed: TermView) -> bool {
    &&& renamed.coeff == term.coeff
    &&& renamed.factors.len() == term.factors.len()
    &&& forall|f: int|
        0 <= f < term.factors.len() ==> (#[trigger] renamed.factors[f]).tensor
            == term.factors[f].tensor && renamed.factors[f].indices.len()
            == term.factors[f].indices.len()
    &&& distinct_ids(renamed.sums)
    &&& forall|k: int| 0 <= k < renamed.sums.len() ==> !has_id(fixed, (#[trigger] renamed.sums[k]).id)
    &&& forall|k: int|
        0 <= k < renamed.sums.len() ==> has_range(term.sums, (#[trigger] renamed.sums[k]).range)
    &&& forall|k: int|
        0 <= k < renamed.sums.len() ==> crate::valid::term_uses(
            renamed,
            (#[trigger] renamed.sums[k]).id,
        )
    &&& forall|f: int, k: int|
        0 <= f < renamed.factors.len() && 0 <= k < renamed.factors[f].indices.len() ==> has_id(
            fixed,
            #[trigger] renamed.factors[f].indices[k],
        ) || has_id(renamed.sums, renamed.factors[f].indices[k])
    &&& forall|f: int, k: int|
        0 <= f < term.factors.len() && 0 <= k < term.factors[f].indices.len() && has_id(
            fixed,
            #[trigger] term.factors[f].indices[k],
        ) ==> renamed.factors[f].indices[k] == term.factors[f].indices[k]
}

/// The identities of `factors`, factor after factor.
pub open spec fn flat_ids(factors: Seq<TensorRefView>) -> Seq<IndexId>
    decreases factors.len(),
{
    if factors.len() == 0 {
        Seq::empty()
    } else {
        flat_ids(factors.drop_last()) + factors.last().indices
    }
}

/// The summed identities that occur in `flat`, in order of first occurrence.
pub open spec fn first_occurrences(flat: Seq<IndexId>, sums: Seq<Index>) -> Seq<IndexId>
    decreases flat.len(),
{
    if flat.len() == 0 {
        Seq::empty()
    } else {
        let prefix = first_occurrences(flat.drop_last(), sums);
        let x = flat.last();
        if has_id(sums, x) && !prefix.contains(x) {
            prefix.push(x)
        } else {
            prefix
        }
    }
}

/// The identity that renaming along `order` to `ids` gives `x`: the
/// identity at its position in `order`, or `x` itself when it is not there.
pub open spec fn renamed_id(order: Seq<IndexId>, ids: Seq<IndexId>, x: IndexId) -> IndexId {
    if order.contains(x) {
        ids[order.index_of(x)]
    } else {
        x
    }
}

/// A factor with its identities renamed along `order` to `ids`.
pub open spec fn renamed_factor(order: Seq<IndexId>, ids: Seq<IndexId>, f: TensorRefView) -> TensorRefView {
    TensorRefView { tensor: f.tensor, indices: Seq::new(f.indices.len(), |k: int| renamed_id(order, ids, f.indices[k])) }
}

/// The range of the index with identity `id` in `s`.
pub open spec fn range_of(s: Seq<Index>, id: IndexId) -> crate::repr::RangeId {
    s[choose|p: int| 0 <= p < s.len() && s[p].id == id].range
}

/// `term` with its summed indices renamed, in order of first occurrence
/// among the factors, to the smallest identities that `fixed` leaves free.
pub open spec fn dummies_renamed(fixed: Seq<Index>, term: TermView) -> TermView {
    let order = first_occurrences(flat_ids(term.factors), term.sums);
    let ids = canonical_ids(fixed, term.sums.len());
    TermView {
        sums: Seq::new(order.len(), |j: int| Index { id: ids[j], range: range_of(term.sums, order[j]) }),
        coeff: term.coeff,
        factors: Seq::new(term.factors.len(), |f: int| renamed_factor(order, ids, term.factors[f])),
    }
}

/// The first occurrences are distinct summed identities, and they are
/// exactly the summed identities that occur.
proof fn lemma_first_occurrences(flat: Seq<IndexId>, sums: Seq<Index>)
    ensures
        first_occurrences(flat, sums).no_duplicates(),
        forall|x: IndexId| #[trigger] first_occurrences(flat, sums).contains(x) <==> flat.contains(x) && has_id(sums, x),
        first_occurrences(flat, sums).len() <= flat.len(),
    decreases flat.len(),
{
    if flat.len() > 0 {
        let prefix = flat.drop_last();
        lemma_first_occurrences(prefix, sums);
        let p = first_occurrences(prefix, sums);
        let y = flat.last();
        assert forall|x: IndexId| #[trigger] flat.contains(x) <==> prefix.contains(x) || x == y by {
            if flat.contains(x) {
                let i = choose|i: int| 0 <= i < flat.len() && flat[i] == x;
                if i < flat.len() - 1 {
                    assert(prefix[i] == x);
                }
            }
            if prefix.contains(x) {
                let i = choose|i: int| 0 <= i < prefix.len() && prefix[i] == x;
                assert(flat[i] == x);
            }
            if x == y {
                assert(flat[flat.len() - 1] == x);
            }
        }
        if has_id(sums, y) && !p.contains(y) {
            assert forall|x: IndexId| #[trigger] p.push(y).contains(x) <==> p.contains(x) || x == y by {
                if p.push(y).contains(x) {
                    let i = choose|i: int| 0 <= i < p.push(y).len() && p.push(y)[i] == x;
                    if i < p.len() {
                        assert(p[i] == x);
                    }
                }
                if p.contains(x) {
                    let i = choose|i: int| 0 <= i < p.len() && p[i] == x;
                    assert(p.push(y)[i] == x);
                }
                if x == y {
                    assert(p.push(y)[p.len() as int] == x);
                }
            }
            assert(p.push(y).no_duplicates()) by {
                assert forall|a: int, b: int| 0 <= a < p.push(y).len() && 0 <= b < p.push(y).len() && a != b implies p.push(y)[a]
                    != p.push(y)[b] by {
                    if a == p.len() as int {
                        assert(p.contains(p[b]));
                    } else if b == p.len() as int {
                        assert(p.contains(p[a]));
                    }
                }
            }
        }
    }
}

/// Every identity of a factor occurs in the flattened identities.
proof fn lemma_flat_contains(factors: Seq<TensorRefView>, g: int, k: int)
    requires
        0 <= g < factors.len(),
        0 <= k < factors[g].indices.len(),
    ensures
        flat_ids(factors).contains(factors[g].indices[k]),
    decreases factors.len(),
{
    let prefix = factors.drop_last();
    let flat = flat_ids(factors);
    if g < factors.len() - 1 {
        lemma_flat_contains(prefix, g, k);
        assert(prefix[g] == factors[g]);
        let w = choose|w: int| 0 <= w < flat_ids(prefix).len() && flat_ids(prefix)[w] == factors[g].indices[k];
        assert(flat[w] == factors[g].indices[k]);
    } else {
        assert(flat[flat_ids(prefix).len() + k] == factors.last().indices[k]);
    }
}

/// Growing the order by a new identity renames nothing already renamed,
/// nor any identity other than the new one.
proof fn lemma_renamed_id_stable(order: Seq<IndexId>, ids: Seq<IndexId>, y: IndexId, x: IndexId)
    requires
        order.push(y).no_duplicates(),
        order.contains(x) || x != y,
    ensures
        renamed_id(order.push(y), ids, x) == renamed_id(order, ids, x),
{
    let grown = order.push(y);
    if order.contains(x) {
        let i = order.index_of(x);
        assert(grown[i] == x);
        assert(grown.contains(x));
        let j = grown.index_of(x);
        assert(grown[j] == x);
        assert(i == j);
    } else {
        assert(!grown.contains(x)) by {
            if grown.contains(x) {
                let i = choose|i: int| 0 <= i < grown.len() && grown[i] == x;
                if i < order.len() {
                    assert(order[i] == x);
                }
            }
        }
    }
}

/// Renaming the identity just added to the order gives the id at its slot.
proof fn lemma_renamed_id_new(order: Seq<IndexId>, ids: Seq<IndexId>, y: IndexId)
    requires
        order.push(y).no_duplicates(),
    ensures
        renamed_id(order.push(y), ids, y) == ids[order.len() as int],
{
    let grown = order.push(y);
    assert(grown[order.len() as int] == y);
    assert(grown.contains(y));
    let j = grown.index_of(y);
    assert(grown[j] == y);
    assert(j == order.len());
}

/// Renaming an identity at slot `j` of the order gives the id at slot `j`.
proof fn lemma_renamed_id_at(order: Seq<IndexId>, ids: Seq<IndexId>, j: int)
    requires
        order.no_duplicates(),
        0 <= j < order.len(),
    ensures
        renamed_id(order, ids, order[j]) == ids[j],
{
    assert(order.contains(order[j]));
    let i = order.index_of(order[j]);
    assert(order[i] == order[j]);
}

/// Rename summed indices to the canonical identities in order of first
/// occurrence among the factors.
#[verifier::loop_isolation(false)]
#[verifier::spinoff_prover]
#[verifier::rlimit(80)]
fn rename_dummies(term: Term, fixed: &[Index]) -> (r: Result<Term, CanonError>)
    requires
        distinct_ids(term.sums@),
        forall|k: int| 0 <= k < term.sums.len() ==> !has_id(fixed@, (#[trigger] term.sums@[k]).id),
        forall|f: int, k: int|
            0 <= f < term.factors.len() && 0 <= k < term.factors@[f].indices.len() ==> has_id(
                fixed@,
                #[trigger] term.factors@[f].indices@[k],
            ) || has_id(term.sums@, term.factors@[f].indices@[k]),
    ensures
        r matches Ok(t) ==> renames_sums(fixed@, term@, t@),
        r matches Ok(t) ==> t@ == dummies_renamed(fixed@, term@),
        r matches Err(e) ==> e == CanonError::ExhaustedIndexIds && ids_short(fixed@, term@.sums.len() as int),
{
    let ghost tv = term@;
    let fresh_ids = match canonical_sum_ids(fixed, term.sums.len()) {
        Ok(ids) => ids,
        Err(e) => {
            proof {
                reveal(ids_short);
            }
            return Err(e);
        },
    };
    let mut renamed: Vec<(IndexId, IndexId)> = Vec::new();
    let mut sums: Vec<Index> = Vec::new();
    let mut factors: Vec<TensorRef> = Vec::new();
    let ghost mut positions: Seq<int> = Seq::empty();
    let ghost mut uses: Seq<(int, int)> = Seq::empty();
    let ghost mut order: Seq<IndexId> = Seq::empty();
    let ghost ids = fresh_ids@;
    proof {
        assert(tv.factors.take(0) =~= Seq::<TensorRefView>::empty());
        assert(flat_ids(tv.factors.take(0)) =~= Seq::<IndexId>::empty());
    }
    let mut f: usize = 0;
    while f < term.factors.len()
        invariant
            f <= term.factors.len(),
            factors@.len() == f,
            sums@.len() <= term.sums.len(),
            renamed@.len() == sums@.len(),
            positions.len() == sums@.len(),
            uses.len() == sums@.len(),
            forall|j: int| 0 <= j < sums@.len() ==> #[trigger] sums@[j].id == fresh_ids@[j] && renamed@[j].1 == fresh_ids@[j],
            forall|j: int| 0 <= j < sums@.len() ==> 0 <= #[trigger] positions[j] < term.sums.len() && term.sums@[positions[j]].id == renamed@[j].0 && sums@[j].range == term.sums@[positions[j]].range,
            positions.no_duplicates(),
            forall|j: int| 0 <= j < sums@.len() ==> {
                let u = #[trigger] uses[j];
                0 <= u.0 < factors@.len() && 0 <= u.1 < factors@[u.0].indices.len() && factors@[u.0].indices@[u.1] == sums@[j].id
            },
            forall|g: int| 0 <= g < f ==> (#[trigger] factors@[g]).tensor == term.factors@[g].tensor && factors@[g].indices.len() == term.factors@[g].indices.len(),
            forall|g: int, k: int| 0 <= g < f && 0 <= k < factors@[g].indices.len() ==> has_id(fixed@, #[trigger] factors@[g].indices@[k]) || has_id(sums@, factors@[g].indices@[k]),
            forall|g: int, k: int| 0 <= g < f && 0 <= k < term.factors@[g].indices.len() && has_id(fixed@, #[trigger] term.factors@[g].indices@[k]) ==> factors@[g].indices@[k] == term.factors@[g].indices@[k],
            tv == term@,
            ids == fresh_ids@,
            ids == canonical_ids(fixed@, term.sums.len() as nat),
            order.len() == renamed@.len(),
            forall|j: int| 0 <= j < order.len() ==> #[trigger] renamed@[j].0 == order[j],
            order == first_occurrences(flat_ids(tv.factors.take(f as int)), tv.sums),
            forall|j: int| 0 <= j < sums@.len() ==> #[trigger] sums@[j] == (Index { id: ids[j], range: range_of(tv.sums, order[j]) }),
            forall|g: int| 0 <= g < f ==> (#[trigger] factors@[g])@ == renamed_factor(order, ids, tv.factors[g]),
        decreases term.factors.len() - f,
    {
        let factor = &term.factors[f];
        assert(tv.factors[f as int] == factor@);
        let mut indices: Vec<IndexId> = Vec::new();
        let mut k: usize = 0;
        proof {
            assert(factor.indices@.take(0) =~= Seq::<IndexId>::empty());
            assert(flat_ids(tv.factors.take(f as int)) + factor.indices@.take(0) =~= flat_ids(tv.factors.take(f as int)));
        }
        while k < factor.indices.len()
            invariant
                f < term.factors.len(),
                k <= factor.indices.len(),
                indices@.len() == k,
                factors@.len() == f,
                sums@.len() <= term.sums.len(),
                renamed@.len() == sums@.len(),
                positions.len() == sums@.len(),
                uses.len() == sums@.len(),
                forall|j: int| 0 <= j < sums@.len() ==> #[trigger] sums@[j].id == fresh_ids@[j] && renamed@[j].1 == fresh_ids@[j],
                forall|j: int| 0 <= j < sums@.len() ==> 0 <= #[trigger] positions[j] < term.sums.len() && term.sums@[positions[j]].id == renamed@[j].0 && sums@[j].range == term.sums@[positions[j]].range,
                positions.no_duplicates(),
                forall|j: int| 0 <= j < sums@.len() ==> {
                    let u = #[trigger] uses[j];
                    (0 <= u.0 < factors@.len() && 0 <= u.1 < factors@[u.0].indices.len() && factors@[u.0].indices@[u.1] == sums@[j].id)
                    || (u.0 == f && 0 <= u.1 < indices@.len() && indices@[u.1] == sums@[j].id)
                },
                forall|x: int| 0 <= x < k ==> has_id(fixed@, #[trigger] indices@[x]) || has_id(sums@, indices@[x]),
                forall|g: int, x: int| 0 <= g < f && 0 <= x < factors@[g].indices.len() ==> has_id(fixed@, #[trigger] factors@[g].indices@[x]) || has_id(sums@, factors@[g].indices@[x]),
                forall|x: int| 0 <= x < k && has_id(fixed@, #[trigger] factor.indices@[x]) ==> indices@[x] == factor.indices@[x],
                tv == term@,
                ids == fresh_ids@,
                factor@ == tv.factors[f as int],
                order.len() == renamed@.len(),
                forall|j: int| 0 <= j < order.len() ==> #[trigger] renamed@[j].0 == order[j],
                order == first_occurrences(flat_ids(tv.factors.take(f as int)) + factor.indices@.take(k as int), tv.sums),
                forall|j: int| 0 <= j < sums@.len() ==> #[trigger] sums@[j] == (Index { id: ids[j], range: range_of(tv.sums, order[j]) }),
                forall|g: int| 0 <= g < f ==> (#[trigger] factors@[g])@ == renamed_factor(order, ids, tv.factors[g]),
                forall|x: int| 0 <= x < k ==> #[trigger] indices@[x] == renamed_id(order, ids, factor.indices@[x]),
            decreases factor.indices.len() - k,
        {
            let original = factor.indices[k];
            let ghost sums_before = sums@;
            let ghost indices_before = indices@;
            let ghost order_before = order;
            let ghost prefix = flat_ids(tv.factors.take(f as int)) + factor.indices@.take(k as int);
            proof {
                assert((flat_ids(tv.factors.take(f as int)) + factor.indices@.take(k + 1)).drop_last() =~= prefix);
                assert((flat_ids(tv.factors.take(f as int)) + factor.indices@.take(k + 1)).last() == original);
                lemma_first_occurrences(prefix, tv.sums);
                lemma_first_occurrences(prefix.push(original), tv.sums);
                assert(flat_ids(tv.factors.take(f as int)) + factor.indices@.take(k + 1) =~= prefix.push(original));
            }
            assert(has_id(fixed@, original) || has_id(term.sums@, original));
            match sum_position(&term.sums, original) {
                None => {
                    proof {
                        assert(!order.contains(original));
                    }
                    indices.push(original);
                },
                Some(p) => {
                    match renamed_position(&renamed, original) {
                        Some(j) => {
                            let id = renamed[j].1;
                            assert(sums@[j as int].id == id);
                            proof {
                                assert(order[j as int] == original);
                                assert(order.contains(original));
                                lemma_renamed_id_at(order, ids, j as int);
                            }
                            indices.push(id);
                        },
                        None => {
                            proof {
                                assert(!positions.contains(p as int)) by {
                                    if positions.contains(p as int) {
                                        let j = choose|j: int| 0 <= j < positions.len() && positions[j] == p as int;
                                        assert(term.sums@[positions[j]].id == renamed@[j].0);
                                    }
                                }
                                let extended = positions.push(p as int);
                                assert(extended.no_duplicates());
                                crate::count::lemma_distinct_bounded(extended, term.sums.len() as int);
                            }
                            let id = fresh_ids[renamed.len()];
                            renamed.push((original, id));
                            sums.push(Index { id, range: term.sums[p].range });
                            proof {
                                positions = positions.push(p as int);
                                uses = uses.push((f as int, k as int));
                                assert(!order.contains(original)) by {
                                    if order.contains(original) {
                                        let w = choose|w: int| 0 <= w < order.len() && order[w] == original;
                                        assert(renamed@[w].0 == original);
                                    }
                                }
                                assert(has_id(tv.sums, original));
                                order = order.push(original);
                                lemma_renamed_id_new(order_before, ids, original);
                                let q = choose|q: int| 0 <= q < tv.sums.len() && tv.sums[q].id == original;
                                assert(tv.sums[p as int].id == original);
                                assert(q == p);
                            }
                            indices.push(id);
                            assert(sums@[sums@.len() - 1].id == id);
                            assert(has_id(sums@, indices@[k as int]));
                        },
                    }
                },
            }
            proof {
                assert(sums_before.len() <= sums@.len());
                assert forall|y: int| 0 <= y < sums_before.len() implies sums@[y] == #[trigger] sums_before[y] by {}
                assert forall|x: int| 0 <= x < k + 1 implies has_id(fixed@, #[trigger] indices@[x]) || has_id(sums@, indices@[x]) by {
                    if x < k {
                        assert(indices@[x] == indices_before[x]);
                        if has_id(sums_before, indices_before[x]) {
                            let y = choose|y: int| 0 <= y < sums_before.len() && (#[trigger] sums_before[y]).id == indices_before[x];
                            assert(sums@[y].id == indices@[x]);
                        }
                    }
                }
                if has_id(fixed@, original) {
                    assert(!has_id(term.sums@, original));
                }
                assert(order == first_occurrences(prefix.push(original), tv.sums));
                assert(order =~= order_before || order =~= order_before.push(original));
                assert forall|y: int| 0 <= y < k implies #[trigger] indices@[y] == renamed_id(order, ids, factor.indices@[y]) by {
                    assert(indices@[y] == indices_before[y]);
                    if order != order_before {
                        let z = factor.indices@[y];
                        assert(prefix[flat_ids(tv.factors.take(f as int)).len() + y] == z);
                        assert(prefix.contains(z));
                        lemma_renamed_id_stable(order_before, ids, original, z);
                    }
                }
                assert forall|g: int| 0 <= g < f implies (#[trigger] factors@[g])@ == renamed_factor(order, ids, tv.factors[g]) by {
                    if order != order_before {
                        assert forall|x: int| 0 <= x < tv.factors[g].indices.len() implies renamed_id(order, ids, tv.factors[g].indices[x])
                            == renamed_id(order_before, ids, tv.factors[g].indices[x]) by {
                            let z = tv.factors[g].indices[x];
                            lemma_flat_contains(tv.factors.take(f as int), g, x);
                            assert(tv.factors.take(f as int)[g] == tv.factors[g]);
                            assert(prefix.contains(z)) by {
                                let w = choose|w: int| 0 <= w < flat_ids(tv.factors.take(f as int)).len() && flat_ids(tv.factors.take(f as int))[w] == z;
                                assert(prefix[w] == z);
                            }
                            lemma_renamed_id_stable(order_before, ids, original, z);
                        }
                        assert(renamed_factor(order, ids, tv.factors[g]) =~= renamed_factor(order_before, ids, tv.factors[g]));
                    }
                }
                assert forall|g: int, x: int| 0 <= g < f && 0 <= x < factors@[g].indices.len() implies has_id(fixed@, #[trigger] factors@[g].indices@[x]) || has_id(sums@, factors@[g].indices@[x]) by {
                    if has_id(sums_before, factors@[g].indices@[x]) {
                        let y = choose|y: int| 0 <= y < sums_before.len() && (#[trigger] sums_before[y]).id == factors@[g].indices@[x];
                        assert(sums@[y].id == factors@[g].indices@[x]);
                    }
                }
            }
            k = k + 1;
        }
        let ghost finished = indices@;
        let ghost factors_before = factors@;
        factors.push(TensorRef { tensor: factor.tensor, indices });
        proof {
            assert(factor.indices@.take(k as int) =~= factor.indices@);
            assert(tv.factors.take(f + 1).drop_last() =~= tv.factors.take(f as int));
            assert(tv.factors.take(f + 1).last() == tv.factors[f as int]);
            assert(flat_ids(tv.factors.take(f + 1)) == flat_ids(tv.factors.take(f as int)) + factor.indices@);
            assert(factors@[f as int]@ =~= renamed_factor(order, ids, tv.factors[f as int])) by {
                assert(factors@[f as int]@.indices == finished);
            }
            assert forall|g: int| 0 <= g < f + 1 implies (#[trigger] factors@[g])@ == renamed_factor(order, ids, tv.factors[g]) by {
                if g < f {
                    assert(factors@[g] == factors_before[g]);
                }
            }
            assert forall|g: int, x: int| 0 <= g < f + 1 && 0 <= x < factors@[g].indices.len() implies has_id(fixed@, #[trigger] factors@[g].indices@[x]) || has_id(sums@, factors@[g].indices@[x]) by {
                if g == f {
                    assert(factors@[g].indices@[x] == finished[x]);
                }
            }
        }
        f = f + 1;
    }
    let result = Term { sums, coeff: term.coeff, factors };
    proof {
        assert(tv.factors.take(f as int) =~= tv.factors);
        lemma_first_occurrences(flat_ids(tv.factors), tv.sums);
        assert(result@.sums =~= dummies_renamed(fixed@, tv).sums);
        assert(result@.factors =~= dummies_renamed(fixed@, tv).factors) by {
            assert forall|g: int| 0 <= g < result@.factors.len() implies result@.factors[g] == dummies_renamed(fixed@, tv).factors[g] by {
                assert(result@.factors[g] == factors@[g]@);
            }
        }
        assert forall|a: int, b: int| 0 <= a < result.sums@.len() && 0 <= b < result.sums@.len() && a != b implies (#[trigger] result.sums@[a]).id != (#[trigger] result.sums@[b]).id by {
            if a < b {
                assert(fresh_ids@[a].0 < fresh_ids@[b].0);
            } else {
                assert(fresh_ids@[b].0 < fresh_ids@[a].0);
            }
        }
        assert forall|k: int| 0 <= k < result.sums@.len() implies has_range(term@.sums, (#[trigger] result@.sums[k]).range) by {
            assert(term.sums@[positions[k]].range == result.sums@[k].range);
        }
        assert forall|k: int| 0 <= k < result.sums@.len() implies crate::valid::term_uses(result@, (#[trigger] result@.sums[k]).id) by {
            let u = uses[k];
            assert(result@.factors[u.0].indices[u.1] == result@.sums[k].id);
        }
    }
    Ok(result)
}

// ----------------------------------------------------------------------------
// Ordering of term bodies
// ----------------------------------------------------------------------------

/// The entries of `s` as integers.
pub open spec fn u32_keys(s: Seq<u32>) -> Seq<int> {
    s.map_values(|x: u32| x as int)
}

/// The tensors of `factors`, in order, as integers.
pub open spec fn tensor_key_seq(factors: Seq<TensorRefView>) -> Seq<int> {
    factors.map_values(|f: TensorRefView| f.tensor.0 as int)
}

/// The index identities of `factors`, factor after factor, as integers.
pub open spec fn flat_index_ids(factors: Seq<TensorRefView>) -> Seq<int>
    decreases factors.len(),
{
    if factors.len() == 0 {
        Seq::empty()
    } else {
        flat_index_ids(factors.drop_last()) + id_keys(factors.last().indices)
    }
}

/// The identity and range of each summed index, index after index.
pub open spec fn sum_key_seq(sums: Seq<Index>) -> Seq<int>
    decreases sums.len(),
{
    if sums.len() == 0 {
        Seq::empty()
    } else {
        sum_key_seq(sums.drop_last()) + seq![sums.last().id.0 as int, sums.last().range.0 as int]
    }
}

/// Order two term bodies by their tensors, then their indices, then their
/// summed indices.
pub open spec fn term_body_order(left: TermView, right: TermView) -> int {
    let tensors = lex_order(tensor_key_seq(left.factors), tensor_key_seq(right.factors));
    let indices = lex_order(flat_index_ids(left.factors), flat_index_ids(right.factors));
    if tensors != 0 {
        tensors
    } else if indices != 0 {
        indices
    } else {
        lex_order(sum_key_seq(left.sums), sum_key_seq(right.sums))
    }
}

/// Swapping two bodies negates their order, and a body equals itself.
pub proof fn lemma_body_order_swap(a: TermView, b: TermView)
    ensures
        term_body_order(a, b) == -term_body_order(b, a),
        term_body_order(a, a) == 0,
{
    lemma_lex_order_swap(tensor_key_seq(a.factors), tensor_key_seq(b.factors));
    lemma_lex_order_swap(flat_index_ids(a.factors), flat_index_ids(b.factors));
    lemma_lex_order_swap(sum_key_seq(a.sums), sum_key_seq(b.sums));
    lemma_lex_order_zero(tensor_key_seq(a.factors), tensor_key_seq(a.factors));
    lemma_lex_order_zero(flat_index_ids(a.factors), flat_index_ids(a.factors));
    lemma_lex_order_zero(sum_key_seq(a.sums), sum_key_seq(a.sums));
}

/// The order of bodies is transitive.
pub proof fn lemma_body_order_trans(a: TermView, b: TermView, c: TermView)
    requires
        term_body_order(a, b) <= 0,
        term_body_order(b, c) <= 0,
    ensures
        term_body_order(a, c) <= 0,
{
    let (ta, tb, tc) = (tensor_key_seq(a.factors), tensor_key_seq(b.factors), tensor_key_seq(c.factors));
    let (ia, ib, ic) = (flat_index_ids(a.factors), flat_index_ids(b.factors), flat_index_ids(c.factors));
    let (sa, sb, sc) = (sum_key_seq(a.sums), sum_key_seq(b.sums), sum_key_seq(c.sums));
    lemma_lex_order_zero(ta, tb);
    lemma_lex_order_zero(tb, tc);
    lemma_lex_order_zero(ta, tc);
    lemma_lex_order_zero(ia, ib);
    lemma_lex_order_zero(ib, ic);
    lemma_lex_order_zero(ia, ic);
    lemma_lex_order_zero(sa, sb);
    lemma_lex_order_zero(sb, sc);
    lemma_lex_order_zero(sa, sc);
    assert(lex_order(ta, tb) <= 0 && lex_order(tb, tc) <= 0);
    lemma_lex_order_trans(ta, tb, tc);
    if lex_order(ta, tb) == 0 && lex_order(tb, tc) == 0 {
        assert(lex_order(ia, ib) <= 0 && lex_order(ib, ic) <= 0);
        lemma_lex_order_trans(ia, ib, ic);
        if lex_order(ia, ib) == 0 && lex_order(ib, ic) == 0 {
            lemma_lex_order_trans(sa, sb, sc);
        }
    }
}

fn compare_u32s(a: &Vec<u32>, b: &Vec<u32>) -> (r: i8)
    ensures
        -1 <= r <= 1,
        r == lex_order(u32_keys(a@), u32_keys(b@)),
{
    let ghost ka = u32_keys(a@);
    let ghost kb = u32_keys(b@);
    proof {
        lemma_lex_step(ka, kb, 0);
    }
    let mut k: usize = 0;
    while k < a.len() && k < b.len()
        invariant
            k <= a.len(),
            k <= b.len(),
            ka == u32_keys(a@),
            kb == u32_keys(b@),
            lex_order(ka, kb) == lex_order(ka.skip(k as int), kb.skip(k as int)),
        decreases a.len() - k,
    {
        proof {
            lemma_lex_step(ka, kb, k as int);
        }
        if a[k] < b[k] {
            return -1;
        }
        if a[k] > b[k] {
            return 1;
        }
        k = k + 1;
    }
    proof {
        lemma_lex_step(ka, kb, k as int);
    }
    if a.len() < b.len() {
        -1
    } else if a.len() > b.len() {
        1
    } else {
        0
    }
}

fn tensor_keys(term: &Term) -> (r: Vec<u32>)
    ensures
        u32_keys(r@) == tensor_key_seq(term@.factors),
{
    let mut keys: Vec<u32> = Vec::new();
    let mut f: usize = 0;
    while f < term.factors.len()
        invariant
            f <= term.factors.len(),
            keys@.len() == f,
            forall|j: int| 0 <= j < f ==> keys@[j] == (#[trigger] term@.factors[j]).tensor.0,
        decreases term.factors.len() - f,
    {
        assert(term@.factors[f as int] == term.factors@[f as int]@);
        keys.push(term.factors[f].tensor.0);
        f = f + 1;
    }
    assert(u32_keys(keys@) =~= tensor_key_seq(term@.factors));
    keys
}

fn index_keys(term: &Term) -> (r: Vec<u32>)
    ensures
        u32_keys(r@) == flat_index_ids(term@.factors),
{
    let mut keys: Vec<u32> = Vec::new();
    let mut f: usize = 0;
    while f < term.factors.len()
        invariant
            f <= term.factors.len(),
            u32_keys(keys@) =~= flat_index_ids(term@.factors.take(f as int)),
        decreases term.factors.len() - f,
    {
        let indices = &term.factors[f].indices;
        let ghost base = keys@;
        let mut k: usize = 0;
        while k < indices.len()
            invariant
                k <= indices.len(),
                keys@.len() == base.len() + k,
                forall|j: int| 0 <= j < base.len() ==> keys@[j] == base[j],
                forall|j: int| 0 <= j < k ==> keys@[base.len() + j] == (#[trigger] indices@[j]).0,
            decreases indices.len() - k,
        {
            keys.push(indices[k].0);
            k = k + 1;
        }
        proof {
            let grown = term@.factors.take(f + 1);
            assert(grown.drop_last() =~= term@.factors.take(f as int));
            assert(grown.last() == term@.factors[f as int]);
            assert(term@.factors[f as int] == term.factors@[f as int]@);
            assert(term@.factors[f as int].indices == indices@);
            assert(u32_keys(keys@) =~= u32_keys(base) + id_keys(indices@));
        }
        f = f + 1;
    }
    assert(term@.factors.take(f as int) =~= term@.factors);
    keys
}

fn sum_keys(sums: &Vec<Index>) -> (r: Vec<u32>)
    ensures
        u32_keys(r@) == sum_key_seq(sums@),
{
    let mut keys: Vec<u32> = Vec::new();
    let mut k: usize = 0;
    while k < sums.len()
        invariant
            k <= sums.len(),
            u32_keys(keys@) =~= sum_key_seq(sums@.take(k as int)),
        decreases sums.len() - k,
    {
        let ghost base = keys@;
        keys.push(sums[k].id.0);
        keys.push(sums[k].range.0);
        proof {
            let grown = sums@.take(k + 1);
            assert(grown.drop_last() =~= sums@.take(k as int));
            assert(grown.last() == sums@[k as int]);
            assert(u32_keys(keys@) =~= u32_keys(base) + seq![sums@[k as int].id.0 as int, sums@[k as int].range.0 as int]);
        }
        k = k + 1;
    }
    assert(sums@.take(k as int) =~= sums@);
    keys
}

/// Order two term bodies by their tensors, then their indices, then their sums.
pub fn compare_term_bodies(left: &Term, right: &Term) -> (r: i8)
    ensures
        -1 <= r <= 1,
        r == term_body_order(left@, right@),
{
    let order = compare_u32s(&tensor_keys(left), &tensor_keys(right));
    if order != 0 {
        return order;
    }
    let order = compare_u32s(&index_keys(left), &index_keys(right));
    if order != 0 {
        return order;
    }
    compare_u32s(&sum_keys(&left.sums), &sum_keys(&right.sums))
}

// ----------------------------------------------------------------------------
// Canonical terms and expressions
// ----------------------------------------------------------------------------

/// `t` arranges the factors of `term` in nondecreasing tensor order, each
/// possibly with its slots rearranged, renames the summed indices, and is
/// valid in the same scope.
pub open spec fn arranges_term(
    c: ComputationView,
    fixed: Seq<Index>,
    term: TermView,
    t: TermView,
) -> bool {
    &&& term_context_valid(c, fixed, t)
    &&& t.factors.len() == term.factors.len()
    &&& exists|order: Seq<usize>|
        #[trigger] perm_valid(order, term.factors.len()) && forall|i: int|
            0 <= i < t.factors.len() ==> (#[trigger] t.factors[i]).tensor
                == term.factors[order[i] as int].tensor && t.factors[i].indices.len()
                == term.factors[order[i] as int].indices.len()
    &&& forall|a: int, b: int|
        0 <= a < b < t.factors.len() ==> (#[trigger] t.factors[a]).tensor.0 <= (
        #[trigger] t.factors[b]).tensor.0
    &&& forall|k: int| 0 <= k < t.sums.len() ==> has_range(term.sums, (#[trigger] t.sums[k]).range)
    &&& forall|k: int|
        0 <= k < t.sums.len() ==> crate::valid::term_uses(t, (#[trigger] t.sums[k]).id)
}

/// The canonical form of a nonzero term: an arrangement of it with the same
/// coefficient, or with the negated coefficient where an odd symmetry was used.
pub open spec fn canonical_shape(
    c: ComputationView,
    fixed: Seq<Index>,
    term: TermView,
    t: TermView,
) -> bool {
    &&& arranges_term(c, fixed, term, t)
    &&& t.coeff == term.coeff || t.coeff == crate::coeff::ratio_negation(term.coeff)
}

fn arrange_factors(variant: &Vec<TensorRef>, order: &Vec<usize>) -> (r: Vec<TensorRef>)
    requires
        forall|k: int| 0 <= k < order.len() ==> #[trigger] order@[k] < variant.len(),
    ensures
        r@.len() == order@.len(),
        forall|k: int| 0 <= k < order.len() ==> (#[trigger] r@[k])@ == variant@[order@[k] as int]@,
{
    let mut r: Vec<TensorRef> = Vec::new();
    let mut k: usize = 0;
    while k < order.len()
        invariant
            k <= order.len(),
            r@.len() == k,
            forall|j: int| 0 <= j < order.len() ==> #[trigger] order@[j] < variant.len(),
            forall|j: int| 0 <= j < k ==> (#[trigger] r@[j])@ == variant@[order@[j] as int]@,
        decreases order.len() - k,
    {
        r.push(variant[order[k]].clone());
        k = k + 1;
    }
    r
}

/// The tensors of `factors`, in order.
pub open spec fn tensors_of(factors: Seq<TensorRefView>) -> Seq<TensorId> {
    factors.map_values(|f: TensorRefView| f.tensor)
}

/// `term` with the factors `choice` taken in the order `order` and its
/// summed indices renamed.
pub open spec fn candidate_of(fixed: Seq<Index>, term: TermView, choice: Seq<TensorRefView>, order: Seq<usize>) -> TermView {
    dummies_renamed(
        fixed,
        TermView { sums: term.sums, coeff: term.coeff, factors: Seq::new(order.len(), |k: int| choice[order[k] as int]) },
    )
}

/// `t` is a candidate form of `term`: its factors rearranged under their
/// declared symmetries, ordered by tensor, with the summed indices renamed;
/// `action` is the combined action of the rearrangements.
pub open spec fn is_candidate(c: ComputationView, fixed: Seq<Index>, term: TermView, t: TermView, action: SymmetryAction) -> bool {
    exists|elements: Seq<(Seq<usize>, SymmetryAction)>, order: Seq<usize>|
        #![trigger elements_valid(c, term.factors, elements), perm_valid(order, term.factors.len())]
        elements_valid(c, term.factors, elements) && perm_valid(order, term.factors.len()) && sorted_by_tensor(
            tensors_of(term.factors),
            order,
        ) && t == candidate_of(fixed, term, variant_choice(term.factors, elements).0, order) && action == variant_choice(
            term.factors,
            elements,
        ).1
}

/// No candidate of `term` has a smaller body than `t`.
pub open spec fn smallest_candidate(c: ComputationView, fixed: Seq<Index>, term: TermView, t: TermView) -> bool {
    forall|u: TermView, a: SymmetryAction| #[trigger] is_candidate(c, fixed, term, u, a) ==> term_body_order(t, u) <= 0
}

/// Smallest candidates arise both with and without a change of sign.
pub open spec fn sign_conflict(c: ComputationView, fixed: Seq<Index>, term: TermView) -> bool {
    exists|u: TermView, w: TermView|
        #![trigger is_candidate(c, fixed, term, u, SymmetryAction::Identity), is_candidate(c, fixed, term, w, SymmetryAction::Negate)]
        is_candidate(c, fixed, term, u, SymmetryAction::Identity) && smallest_candidate(c, fixed, term, u) && is_candidate(
            c,
            fixed,
            term,
            w,
            SymmetryAction::Negate,
        ) && smallest_candidate(c, fixed, term, w)
}

/// The canonical form of a term: none for a zero coefficient or a sign
/// conflict, else a smallest candidate, its coefficient negated where an odd
/// symmetry reached it.
pub open spec fn canonical_form(c: ComputationView, fixed: Seq<Index>, term: TermView, r: Option<TermView>) -> bool {
    if is_zero_value(term.coeff) || sign_conflict(c, fixed, term) {
        r is None
    } else {
        r matches Some(t) && exists|u: TermView, a: SymmetryAction|
            #[trigger] is_candidate(c, fixed, term, u, a) && smallest_candidate(c, fixed, term, u) && t == (TermView {
                sums: u.sums,
                coeff: if a == SymmetryAction::Negate {
                    crate::coeff::ratio_negation(term.coeff)
                } else {
                    term.coeff
                },
                factors: u.factors,
            })
    }
}

/// The candidate for variant `v` and order `o`.
spec fn candidate_at(
    fixed: Seq<Index>,
    term: TermView,
    choices: Seq<(Seq<TensorRefView>, SymmetryAction)>,
    orders: Seq<Vec<usize>>,
    v: int,
    o: int,
) -> TermView {
    candidate_of(fixed, term, choices[v].0, orders[o]@)
}

/// The pair `(v2, o2)` comes before `(v, o)` in the search.
spec fn seen_before(v: int, o: int, count: int, v2: int, o2: int) -> bool {
    &&& 0 <= o2 < count
    &&& 0 <= v2
    &&& (v2 < v || (v2 == v && o2 < o))
}

/// `b` is no larger than any candidate seen before `(v, o)`.
spec fn minimal_so_far(
    fixed: Seq<Index>,
    term: TermView,
    choices: Seq<(Seq<TensorRefView>, SymmetryAction)>,
    orders: Seq<Vec<usize>>,
    v: int,
    o: int,
    b: TermView,
) -> bool {
    forall|v2: int, o2: int|
        seen_before(v, o, orders.len() as int, v2, o2) ==> term_body_order(b, #[trigger] candidate_at(fixed, term, choices, orders, v2, o2))
            <= 0
}

/// A candidate seen before `(v, o)` with the action `action` has the body
/// order of `b`.
spec fn flagged(
    fixed: Seq<Index>,
    term: TermView,
    choices: Seq<(Seq<TensorRefView>, SymmetryAction)>,
    orders: Seq<Vec<usize>>,
    v: int,
    o: int,
    b: TermView,
    action: SymmetryAction,
) -> bool {
    exists|v2: int, o2: int|
        seen_before(v, o, orders.len() as int, v2, o2) && term_body_order(#[trigger] candidate_at(fixed, term, choices, orders, v2, o2), b)
            == 0 && choices[v2].1 == action
}

/// `b` is a candidate seen before `(v, o)`.
spec fn reached(
    fixed: Seq<Index>,
    term: TermView,
    choices: Seq<(Seq<TensorRefView>, SymmetryAction)>,
    orders: Seq<Vec<usize>>,
    v: int,
    o: int,
    b: TermView,
) -> bool {
    exists|v2: int, o2: int| seen_before(v, o, orders.len() as int, v2, o2) && b == #[trigger] candidate_at(fixed, term, choices, orders, v2, o2)
}

/// A strictly smaller body stays strictly smaller.
proof fn lemma_body_order_strict(a: TermView, b: TermView, c: TermView)
    requires
        term_body_order(a, b) < 0,
        term_body_order(b, c) <= 0,
    ensures
        term_body_order(a, c) < 0,
{
    lemma_body_order_trans(a, b, c);
    if term_body_order(a, c) == 0 {
        lemma_body_order_swap(a, c);
        lemma_body_order_trans(c, a, b);
        lemma_body_order_swap(b, c);
        lemma_body_order_trans(b, c, a);
        lemma_body_order_swap(a, b);
    }
}

/// Pairs seen before the next position are those seen before this one and
/// this one itself.
proof fn lemma_seen_step(v: int, o: int, count: int)
    requires
        0 <= o < count,
    ensures
        forall|v2: int, o2: int| #[trigger] seen_before(v, o + 1, count, v2, o2)
            <==> seen_before(v, o, count, v2, o2) || (v2 == v && o2 == o && 0 <= v),
{
}

/// The first candidate searched is the smallest so far, flagged with its own action.
proof fn lemma_search_first(
    fixed: Seq<Index>,
    term: TermView,
    choices: Seq<(Seq<TensorRefView>, SymmetryAction)>,
    orders: Seq<Vec<usize>>,
    v: int,
    o: int,
)
    requires
        v == 0 && o == 0,
        0 <= o < orders.len(),
    ensures
        ({
            let here = candidate_at(fixed, term, choices, orders, v, o);
            &&& minimal_so_far(fixed, term, choices, orders, v, o + 1, here)
            &&& reached(fixed, term, choices, orders, v, o + 1, here)
            &&& forall|act: SymmetryAction|
                #[trigger] flagged(fixed, term, choices, orders, v, o + 1, here, act) <==> act == choices[v].1
        }),
{
    let here = candidate_at(fixed, term, choices, orders, v, o);
    lemma_seen_step(v, o, orders.len() as int);
    lemma_body_order_swap(here, here);
    assert(seen_before(v, o + 1, orders.len() as int, v, o));
    assert forall|v2: int, o2: int| #[trigger] seen_before(v, o + 1, orders.len() as int, v2, o2) implies v2 == v && o2 == o by {}
    assert(reached(fixed, term, choices, orders, v, o + 1, here));
    assert forall|act: SymmetryAction| #[trigger] flagged(fixed, term, choices, orders, v, o + 1, here, act) <==> act == choices[v].1 by {
        if act == choices[v].1 {
            assert(term_body_order(candidate_at(fixed, term, choices, orders, v, o), here) == 0);
        }
    }
}

/// A strictly smaller candidate becomes the smallest so far, flagged with
/// its own action alone.
proof fn lemma_search_smaller(
    fixed: Seq<Index>,
    term: TermView,
    choices: Seq<(Seq<TensorRefView>, SymmetryAction)>,
    orders: Seq<Vec<usize>>,
    v: int,
    o: int,
    old_best: TermView,
)
    requires
        0 <= v,
        0 <= o < orders.len(),
        minimal_so_far(fixed, term, choices, orders, v, o, old_best),
        term_body_order(candidate_at(fixed, term, choices, orders, v, o), old_best) < 0,
    ensures
        ({
            let here = candidate_at(fixed, term, choices, orders, v, o);
            &&& minimal_so_far(fixed, term, choices, orders, v, o + 1, here)
            &&& reached(fixed, term, choices, orders, v, o + 1, here)
            &&& forall|act: SymmetryAction|
                #[trigger] flagged(fixed, term, choices, orders, v, o + 1, here, act) <==> act == choices[v].1
        }),
{
    let here = candidate_at(fixed, term, choices, orders, v, o);
    lemma_seen_step(v, o, orders.len() as int);
    lemma_body_order_swap(here, here);
    assert(seen_before(v, o + 1, orders.len() as int, v, o));
    assert(reached(fixed, term, choices, orders, v, o + 1, here));
    assert forall|v2: int, o2: int| seen_before(v, o + 1, orders.len() as int, v2, o2) implies term_body_order(
        here,
        #[trigger] candidate_at(fixed, term, choices, orders, v2, o2),
    ) < 0 || (v2 == v && o2 == o) by {
        if !(v2 == v && o2 == o) {
            lemma_body_order_strict(here, old_best, candidate_at(fixed, term, choices, orders, v2, o2));
        }
    }
    assert(minimal_so_far(fixed, term, choices, orders, v, o + 1, here));
    assert forall|act: SymmetryAction| #[trigger] flagged(fixed, term, choices, orders, v, o + 1, here, act) <==> act == choices[v].1 by {
        if flagged(fixed, term, choices, orders, v, o + 1, here, act) {
            let (v2, o2) = choose|v2: int, o2: int|
                seen_before(v, o + 1, orders.len() as int, v2, o2) && term_body_order(
                    #[trigger] candidate_at(fixed, term, choices, orders, v2, o2),
                    here,
                ) == 0 && choices[v2].1 == act;
            lemma_body_order_swap(here, candidate_at(fixed, term, choices, orders, v2, o2));
        }
        if act == choices[v].1 {
            assert(term_body_order(candidate_at(fixed, term, choices, orders, v, o), here) == 0);
        }
    }
}

/// A candidate that is not smaller keeps the smallest so far, adding its
/// action to the flags where it ties.
proof fn lemma_search_keep(
    fixed: Seq<Index>,
    term: TermView,
    choices: Seq<(Seq<TensorRefView>, SymmetryAction)>,
    orders: Seq<Vec<usize>>,
    v: int,
    o: int,
    old_best: TermView,
)
    requires
        0 <= v,
        0 <= o < orders.len(),
        minimal_so_far(fixed, term, choices, orders, v, o, old_best),
        reached(fixed, term, choices, orders, v, o, old_best),
        term_body_order(candidate_at(fixed, term, choices, orders, v, o), old_best) >= 0,
        term_body_order(old_best, candidate_at(fixed, term, choices, orders, v, o)) == -term_body_order(
            candidate_at(fixed, term, choices, orders, v, o),
            old_best,
        ),
    ensures
        minimal_so_far(fixed, term, choices, orders, v, o + 1, old_best),
        reached(fixed, term, choices, orders, v, o + 1, old_best),
        forall|act: SymmetryAction|
            #[trigger] flagged(fixed, term, choices, orders, v, o + 1, old_best, act) <==> flagged(
                fixed,
                term,
                choices,
                orders,
                v,
                o,
                old_best,
                act,
            ) || (act == choices[v].1 && term_body_order(candidate_at(fixed, term, choices, orders, v, o), old_best) == 0),
{
    let here = candidate_at(fixed, term, choices, orders, v, o);
    lemma_seen_step(v, o, orders.len() as int);
    assert forall|v2: int, o2: int| seen_before(v, o + 1, orders.len() as int, v2, o2) implies term_body_order(
        old_best,
        #[trigger] candidate_at(fixed, term, choices, orders, v2, o2),
    ) <= 0 by {}
    let (vb, ob) = choose|v2: int, o2: int|
        seen_before(v, o, orders.len() as int, v2, o2) && old_best == #[trigger] candidate_at(fixed, term, choices, orders, v2, o2);
    assert(seen_before(v, o + 1, orders.len() as int, vb, ob));
    assert(reached(fixed, term, choices, orders, v, o + 1, old_best));
    assert forall|act: SymmetryAction| #[trigger] flagged(fixed, term, choices, orders, v, o + 1, old_best, act) <==> flagged(
        fixed,
        term,
        choices,
        orders,
        v,
        o,
        old_best,
        act,
    ) || (act == choices[v].1 && term_body_order(here, old_best) == 0) by {
        if flagged(fixed, term, choices, orders, v, o + 1, old_best, act) {
            let (v2, o2) = choose|v2: int, o2: int|
                seen_before(v, o + 1, orders.len() as int, v2, o2) && term_body_order(
                    #[trigger] candidate_at(fixed, term, choices, orders, v2, o2),
                    old_best,
                ) == 0 && choices[v2].1 == act;
            if !(v2 == v && o2 == o) {
                assert(flagged(fixed, term, choices, orders, v, o, old_best, act));
            }
        }
        if flagged(fixed, term, choices, orders, v, o, old_best, act) {
            let (v2, o2) = choose|v2: int, o2: int|
                seen_before(v, o, orders.len() as int, v2, o2) && term_body_order(
                    #[trigger] candidate_at(fixed, term, choices, orders, v2, o2),
                    old_best,
                ) == 0 && choices[v2].1 == act;
            assert(seen_before(v, o + 1, orders.len() as int, v2, o2));
        }
        if act == choices[v].1 && term_body_order(here, old_best) == 0 {
            assert(seen_before(v, o + 1, orders.len() as int, v, o));
        }
    }
}

/// The searched pairs are exactly the candidates: every pair of a variant
/// choice and a sorted order is a candidate with the choice's action, and
/// every candidate is such a pair.
proof fn lemma_search_covers_candidates(
    c: ComputationView,
    fixed: Seq<Index>,
    term: TermView,
    choices: Seq<(Seq<TensorRefView>, SymmetryAction)>,
    orders: Seq<Vec<usize>>,
    tensors: Seq<TensorId>,
)
    requires
        tensors == tensors_of(term.factors),
        forall|v: int| 0 <= v < choices.len() ==> is_variant_choice(c, term.factors, #[trigger] choices[v]),
        forall|el: Seq<(Seq<usize>, SymmetryAction)>|
            #[trigger] elements_valid(c, term.factors, el) ==> choices.contains(variant_choice(term.factors, el)),
        forall|k: int|
            0 <= k < orders.len() ==> perm_valid(#[trigger] orders[k]@, tensors.len() as nat) && sorted_by_tensor(tensors, orders[k]@),
        forall|q: Seq<usize>| #[trigger] perm_valid(q, tensors.len() as nat) && sorted_by_tensor(tensors, q) ==> produced(orders, 0, q),
    ensures
        forall|v2: int, o2: int|
            0 <= v2 < choices.len() && 0 <= o2 < orders.len() ==> is_candidate(
                c,
                fixed,
                term,
                #[trigger] candidate_at(fixed, term, choices, orders, v2, o2),
                choices[v2].1,
            ),
        forall|u: TermView, a: SymmetryAction|
            #[trigger] is_candidate(c, fixed, term, u, a) ==> exists|v2: int, o2: int|
                0 <= v2 < choices.len() && 0 <= o2 < orders.len() && u == #[trigger] candidate_at(fixed, term, choices, orders, v2, o2)
                    && a == choices[v2].1,
{
    assert forall|v2: int, o2: int| 0 <= v2 < choices.len() && 0 <= o2 < orders.len() implies is_candidate(
        c,
        fixed,
        term,
        #[trigger] candidate_at(fixed, term, choices, orders, v2, o2),
        choices[v2].1,
    ) by {
        assert(is_variant_choice(c, term.factors, choices[v2]));
        let el = choose|el: Seq<(Seq<usize>, SymmetryAction)>| #[trigger] elements_valid(c, term.factors, el) && choices[v2]
            == variant_choice(term.factors, el);
        let order = orders[o2]@;
        assert(perm_valid(order, tensors.len() as nat) && sorted_by_tensor(tensors, order));
        assert(tensors.len() == term.factors.len());
        assert(elements_valid(c, term.factors, el) && perm_valid(order, term.factors.len()));
    }
    assert forall|u: TermView, a: SymmetryAction| #[trigger] is_candidate(c, fixed, term, u, a) implies exists|v2: int, o2: int|
        0 <= v2 < choices.len() && 0 <= o2 < orders.len() && u == #[trigger] candidate_at(fixed, term, choices, orders, v2, o2)
            && a == choices[v2].1 by {
        let (el, order) = choose|el: Seq<(Seq<usize>, SymmetryAction)>, order: Seq<usize>|
            #![trigger elements_valid(c, term.factors, el), perm_valid(order, term.factors.len())]
            elements_valid(c, term.factors, el) && perm_valid(order, term.factors.len()) && sorted_by_tensor(
                tensors_of(term.factors),
                order,
            ) && u == candidate_of(fixed, term, variant_choice(term.factors, el).0, order) && a == variant_choice(
                term.factors,
                el,
            ).1;
        assert(choices.contains(variant_choice(term.factors, el)));
        let v2 = choose|v2: int| 0 <= v2 < choices.len() && choices[v2] == variant_choice(term.factors, el);
        assert(tensors.len() == term.factors.len());
        assert(perm_valid(order, tensors.len() as nat));
        assert(produced(orders, 0, order));
        let o2 = choose|o2: int| 0 <= o2 < orders.len() && #[trigger] orders[o2]@ == order;
        assert(u == candidate_at(fixed, term, choices, orders, v2, o2));
    }
}

/// A searched candidate that ties with a smallest one is itself smallest.
proof fn lemma_flagged_smallest(
    c: ComputationView,
    fixed: Seq<Index>,
    term: TermView,
    choices: Seq<(Seq<TensorRefView>, SymmetryAction)>,
    orders: Seq<Vec<usize>>,
    b: TermView,
    action: SymmetryAction,
)
    requires
        minimal_so_far(fixed, term, choices, orders, choices.len() as int, 0, b),
        flagged(fixed, term, choices, orders, choices.len() as int, 0, b, action),
        forall|v2: int, o2: int|
            0 <= v2 < choices.len() && 0 <= o2 < orders.len() ==> is_candidate(
                c,
                fixed,
                term,
                #[trigger] candidate_at(fixed, term, choices, orders, v2, o2),
                choices[v2].1,
            ),
        forall|u: TermView, a: SymmetryAction|
            #[trigger] is_candidate(c, fixed, term, u, a) ==> exists|v2: int, o2: int|
                0 <= v2 < choices.len() && 0 <= o2 < orders.len() && u == #[trigger] candidate_at(fixed, term, choices, orders, v2, o2)
                    && a == choices[v2].1,
    ensures
        exists|u: TermView| #[trigger] is_candidate(c, fixed, term, u, action) && smallest_candidate(c, fixed, term, u),
{
    let (v2, o2) = choose|v2: int, o2: int|
        seen_before(choices.len() as int, 0, orders.len() as int, v2, o2) && term_body_order(
            #[trigger] candidate_at(fixed, term, choices, orders, v2, o2),
            b,
        ) == 0 && choices[v2].1 == action;
    let u = candidate_at(fixed, term, choices, orders, v2, o2);
    assert(is_candidate(c, fixed, term, u, action));
    assert forall|w: TermView, a: SymmetryAction| #[trigger] is_candidate(c, fixed, term, w, a) implies term_body_order(u, w) <= 0 by {
        let (v3, o3) = choose|v3: int, o3: int|
            0 <= v3 < choices.len() && 0 <= o3 < orders.len() && w == #[trigger] candidate_at(fixed, term, choices, orders, v3, o3)
                && a == choices[v3].1;
        assert(seen_before(choices.len() as int, 0, orders.len() as int, v3, o3));
        assert(term_body_order(b, candidate_at(fixed, term, choices, orders, v3, o3)) <= 0);
        lemma_body_order_trans(u, b, w);
    }
    assert(smallest_candidate(c, fixed, term, u));
}

/// Without flags for both actions the search's result is canonical.
proof fn lemma_no_conflict(
    c: ComputationView,
    fixed: Seq<Index>,
    term: TermView,
    choices: Seq<(Seq<TensorRefView>, SymmetryAction)>,
    orders: Seq<Vec<usize>>,
    b: TermView,
    saw_identity: bool,
    saw_negate: bool,
)
    requires
        !(saw_identity && saw_negate),
        minimal_so_far(fixed, term, choices, orders, choices.len() as int, 0, b),
        reached(fixed, term, choices, orders, choices.len() as int, 0, b),
        saw_identity == flagged(fixed, term, choices, orders, choices.len() as int, 0, b, SymmetryAction::Identity),
        saw_negate == flagged(fixed, term, choices, orders, choices.len() as int, 0, b, SymmetryAction::Negate),
        forall|v2: int, o2: int|
            0 <= v2 < choices.len() && 0 <= o2 < orders.len() ==> is_candidate(
                c,
                fixed,
                term,
                #[trigger] candidate_at(fixed, term, choices, orders, v2, o2),
                choices[v2].1,
            ),
        forall|u: TermView, a: SymmetryAction|
            #[trigger] is_candidate(c, fixed, term, u, a) ==> exists|v2: int, o2: int|
                0 <= v2 < choices.len() && 0 <= o2 < orders.len() && u == #[trigger] candidate_at(fixed, term, choices, orders, v2, o2)
                    && a == choices[v2].1,
    ensures
        !sign_conflict(c, fixed, term),
        smallest_candidate(c, fixed, term, b),
        exists|a: SymmetryAction|
            #[trigger] is_candidate(c, fixed, term, b, a) && (a == SymmetryAction::Negate <==> saw_negate),
{
    let (vb, ob) = choose|v2: int, o2: int|
        seen_before(choices.len() as int, 0, orders.len() as int, v2, o2) && b == #[trigger] candidate_at(fixed, term, choices, orders, v2, o2);
    let ab = choices[vb].1;
    assert(is_candidate(c, fixed, term, b, ab));
    assert forall|w: TermView, a: SymmetryAction| #[trigger] is_candidate(c, fixed, term, w, a) implies term_body_order(b, w) <= 0 by {
        let (v3, o3) = choose|v3: int, o3: int|
            0 <= v3 < choices.len() && 0 <= o3 < orders.len() && w == #[trigger] candidate_at(fixed, term, choices, orders, v3, o3)
                && a == choices[v3].1;
        assert(seen_before(choices.len() as int, 0, orders.len() as int, v3, o3));
    }
    lemma_body_order_swap(b, b);
    assert(flagged(fixed, term, choices, orders, choices.len() as int, 0, b, ab)) by {
        assert(term_body_order(candidate_at(fixed, term, choices, orders, vb, ob), b) == 0);
    }
    if sign_conflict(c, fixed, term) {
        let (u, w) = choose|u: TermView, w: TermView|
            #![trigger is_candidate(c, fixed, term, u, SymmetryAction::Identity), is_candidate(c, fixed, term, w, SymmetryAction::Negate)]
            is_candidate(c, fixed, term, u, SymmetryAction::Identity) && smallest_candidate(c, fixed, term, u) && is_candidate(
                c,
                fixed,
                term,
                w,
                SymmetryAction::Negate,
            ) && smallest_candidate(c, fixed, term, w);
        let (v4, o4) = choose|v4: int, o4: int|
            0 <= v4 < choices.len() && 0 <= o4 < orders.len() && u == #[trigger] candidate_at(fixed, term, choices, orders, v4, o4)
                && SymmetryAction::Identity == choices[v4].1;
        let (v5, o5) = choose|v5: int, o5: int|
            0 <= v5 < choices.len() && 0 <= o5 < orders.len() && w == #[trigger] candidate_at(fixed, term, choices, orders, v5, o5)
                && SymmetryAction::Negate == choices[v5].1;
        assert(term_body_order(u, b) <= 0);
        assert(term_body_order(w, b) <= 0);
        assert(seen_before(choices.len() as int, 0, orders.len() as int, v4, o4));
        assert(seen_before(choices.len() as int, 0, orders.len() as int, v5, o5));
        assert(term_body_order(b, candidate_at(fixed, term, choices, orders, v4, o4)) <= 0);
        assert(term_body_order(b, candidate_at(fixed, term, choices, orders, v5, o5)) <= 0);
        lemma_body_order_swap(u, b);
        lemma_body_order_swap(w, b);
        assert(flagged(fixed, term, choices, orders, choices.len() as int, 0, b, SymmetryAction::Identity));
        assert(flagged(fixed, term, choices, orders, choices.len() as int, 0, b, SymmetryAction::Negate));
    }
}

/// Group elements generated from permutations of `0..rank` permute
/// `0..rank` slots.
proof fn lemma_generated_rank(e: (Seq<usize>, SymmetryAction), rank: nat, generators: Seq<crate::repr::GeneratorView>)
    requires
        generated(e, rank, generators),
        forall|k: int| 0 <= k < generators.len() ==> #[trigger] generators[k].perm.len() == rank,
    ensures
        e.0.len() == rank,
{
    let st = Set::new(|x: (Seq<usize>, SymmetryAction)| x.0.len() == rank);
    assert(st.contains((identity_of(rank), SymmetryAction::Identity)));
    assert(closed_under(st, generators)) by {
        assert forall|x: (Seq<usize>, SymmetryAction), g: int|
            #![trigger st.contains(x), generators[g]]
            st.contains(x) && 0 <= g < generators.len() implies st.contains(
                (composed(x.0, generators[g].perm), combined(x.1, generators[g].action)),
            ) by {
            assert(generators[g].perm.len() == rank);
        }
    }
}

/// Every factor has the arity of its tensor.
pub open spec fn ranks_fit(c: ComputationView, factors: Seq<TensorRefView>) -> bool {
    forall|i: int| 0 <= i < factors.len() ==> (#[trigger] factors[i]).indices.len() == declared_symmetry(c, factors[i].tensor).rank
}

/// The candidates of a valid term give every factor the arity of its tensor.
proof fn lemma_candidate_ranks(c: ComputationView, fixed: Seq<Index>, term: TermView, u: TermView, a: SymmetryAction)
    requires
        term_context_valid(c, fixed, term),
        is_candidate(c, fixed, term, u, a),
    ensures
        ranks_fit(c, u.factors),
        u.factors.len() == term.factors.len(),
{
    let (el, order) = choose|el: Seq<(Seq<usize>, SymmetryAction)>, order: Seq<usize>|
        #![trigger elements_valid(c, term.factors, el), perm_valid(order, term.factors.len())]
        elements_valid(c, term.factors, el) && perm_valid(order, term.factors.len()) && sorted_by_tensor(
            tensors_of(term.factors),
            order,
        ) && u == candidate_of(fixed, term, variant_choice(term.factors, el).0, order) && a == variant_choice(term.factors, el).1;
    let choice = variant_choice(term.factors, el).0;
    assert forall|i: int| 0 <= i < u.factors.len() implies (#[trigger] u.factors[i]).indices.len() == declared_symmetry(
        c,
        u.factors[i].tensor,
    ).rank by {
        let k = order[i] as int;
        assert(0 <= k < term.factors.len());
        let info = declared_symmetry(c, term.factors[k].tensor);
        assert(factor_valid(c, fixed, term.sums, term.factors[k]));
        assert(generated(el[k], info.rank as nat, info.symmetry));
        assert forall|g: int| 0 <= g < info.symmetry.len() implies #[trigger] info.symmetry[g].perm.len() == info.rank as nat by {
            assert(crate::valid::generator_valid(info.symmetry[g], info.rank as nat));
        }
        lemma_generated_rank(el[k], info.rank as nat, info.symmetry);
        assert(choice[k] == variant_of(term.factors[k], el[k]).0);
    }
}

/// Integer keys of identities determine the identities.
proof fn lemma_id_keys_injective(a: Seq<IndexId>, b: Seq<IndexId>)
    requires
        id_keys(a) == id_keys(b),
    ensures
        a == b,
{
    assert(a.len() == id_keys(a).len());
    assert(b.len() == id_keys(b).len());
    assert forall|i: int| 0 <= i < a.len() implies a[i] == b[i] by {
        assert(id_keys(a)[i] == id_keys(b)[i]);
        assert(id_keys(a)[i] == a[i].0 as int);
        assert(id_keys(b)[i] == b[i].0 as int);
        assert(a[i].0 == b[i].0);
    }
    assert(a =~= b);
}

/// Flattened identities and arities determine the factors' identities.
proof fn lemma_flat_determines(a: Seq<TensorRefView>, b: Seq<TensorRefView>)
    requires
        a.len() == b.len(),
        forall|i: int| 0 <= i < a.len() ==> (#[trigger] a[i]).indices.len() == b[i].indices.len(),
        flat_index_ids(a) == flat_index_ids(b),
    ensures
        forall|i: int| 0 <= i < a.len() ==> (#[trigger] a[i]).indices == b[i].indices,
    decreases a.len(),
{
    if a.len() > 0 {
        let (pa, pb) = (flat_index_ids(a.drop_last()), flat_index_ids(b.drop_last()));
        let (la, lb) = (id_keys(a.last().indices), id_keys(b.last().indices));
        assert(la.len() == a.last().indices.len());
        assert(lb.len() == b.last().indices.len());
        assert(a.last().indices.len() == b.last().indices.len()) by {
            assert(a.last() == a[a.len() - 1]);
            assert(b.last() == b[b.len() - 1]);
        }
        assert(la.len() == lb.len());
        assert(pa + la == pb + lb);
        assert((pa + la).len() == (pb + lb).len());
        assert(pa.len() == pb.len());
        assert(pa =~= (pa + la).subrange(0, pa.len() as int));
        assert(pb =~= (pb + lb).subrange(0, pb.len() as int));
        assert(la =~= (pa + la).subrange(pa.len() as int, (pa + la).len() as int));
        assert(lb =~= (pb + lb).subrange(pb.len() as int, (pb + lb).len() as int));
        lemma_id_keys_injective(a.last().indices, b.last().indices);
        lemma_flat_determines(a.drop_last(), b.drop_last());
        assert forall|i: int| 0 <= i < a.len() implies (#[trigger] a[i]).indices == b[i].indices by {
            if i < a.len() - 1 {
                assert(a.drop_last()[i] == a[i]);
                assert(b.drop_last()[i] == b[i]);
            }
        }
    }
}

/// The keys of summed indices determine them.
proof fn lemma_sum_keys_determine(a: Seq<Index>, b: Seq<Index>)
    requires
        sum_key_seq(a) == sum_key_seq(b),
    ensures
        a == b,
    decreases a.len(),
{
    lemma_sum_key_len(a);
    lemma_sum_key_len(b);
    if a.len() > 0 {
        let (pa, pb) = (sum_key_seq(a.drop_last()), sum_key_seq(b.drop_last()));
        let la = seq![a.last().id.0 as int, a.last().range.0 as int];
        let lb = seq![b.last().id.0 as int, b.last().range.0 as int];
        lemma_sum_key_len(a.drop_last());
        lemma_sum_key_len(b.drop_last());
        assert(pa + la == pb + lb);
        assert(pa =~= (pa + la).subrange(0, pa.len() as int));
        assert(pb =~= (pb + lb).subrange(0, pb.len() as int));
        assert((pa + la)[pa.len() as int] == la[0]);
        assert((pa + la)[pa.len() as int + 1] == la[1]);
        assert((pb + lb)[pb.len() as int] == lb[0]);
        assert((pb + lb)[pb.len() as int + 1] == lb[1]);
        lemma_sum_keys_determine(a.drop_last(), b.drop_last());
        assert(a.last() == b.last());
        assert(a =~= a.drop_last().push(a.last()));
        assert(b =~= b.drop_last().push(b.last()));
    }
}

proof fn lemma_sum_key_len(a: Seq<Index>)
    ensures
        sum_key_seq(a).len() == 2 * a.len(),
    decreases a.len(),
{
    if a.len() > 0 {
        lemma_sum_key_len(a.drop_last());
    }
}

/// Bodies of order zero whose factors have the arities of their tensors are
/// equal.
proof fn lemma_body_order_zero(c: ComputationView, u: TermView, w: TermView)
    requires
        term_body_order(u, w) == 0,
        ranks_fit(c, u.factors),
        ranks_fit(c, w.factors),
    ensures
        u.sums == w.sums,
        u.factors == w.factors,
{
    lemma_lex_order_zero(tensor_key_seq(u.factors), tensor_key_seq(w.factors));
    lemma_lex_order_zero(flat_index_ids(u.factors), flat_index_ids(w.factors));
    lemma_lex_order_zero(sum_key_seq(u.sums), sum_key_seq(w.sums));
    assert(u.factors.len() == tensor_key_seq(u.factors).len());
    assert(w.factors.len() == tensor_key_seq(w.factors).len());
    assert forall|i: int| 0 <= i < u.factors.len() implies (#[trigger] u.factors[i]).tensor == w.factors[i].tensor by {
        assert(tensor_key_seq(u.factors)[i] == tensor_key_seq(w.factors)[i]);
    }
    assert forall|i: int| 0 <= i < u.factors.len() implies (#[trigger] u.factors[i]).indices.len() == w.factors[i].indices.len() by {
        assert(u.factors[i].tensor == w.factors[i].tensor);
    }
    lemma_flat_determines(u.factors, w.factors);
    assert(u.factors =~= w.factors) by {
        assert forall|i: int| 0 <= i < u.factors.len() implies u.factors[i] == w.factors[i] by {
            assert(u.factors[i].tensor == w.factors[i].tensor);
            assert(u.factors[i].indices == w.factors[i].indices);
        }
    }
    lemma_sum_keys_determine(u.sums, w.sums);
}

/// Canonicalization is deterministic: a valid term has at most one
/// canonical form.
pub proof fn lemma_canonical_form_unique(
    c: ComputationView,
    fixed: Seq<Index>,
    term: TermView,
    r1: Option<TermView>,
    r2: Option<TermView>,
)
    requires
        term_context_valid(c, fixed, term),
        canonical_form(c, fixed, term, r1),
        canonical_form(c, fixed, term, r2),
    ensures
        r1 == r2,
{
    if !(is_zero_value(term.coeff) || sign_conflict(c, fixed, term)) {
        let t1 = r1->Some_0;
        let t2 = r2->Some_0;
        let (u1, a1) = choose|u: TermView, a: SymmetryAction|
            #[trigger] is_candidate(c, fixed, term, u, a) && smallest_candidate(c, fixed, term, u) && t1 == (TermView {
                sums: u.sums,
                coeff: if a == SymmetryAction::Negate {
                    crate::coeff::ratio_negation(term.coeff)
                } else {
                    term.coeff
                },
                factors: u.factors,
            });
        let (u2, a2) = choose|u: TermView, a: SymmetryAction|
            #[trigger] is_candidate(c, fixed, term, u, a) && smallest_candidate(c, fixed, term, u) && t2 == (TermView {
                sums: u.sums,
                coeff: if a == SymmetryAction::Negate {
                    crate::coeff::ratio_negation(term.coeff)
                } else {
                    term.coeff
                },
                factors: u.factors,
            });
        assert(term_body_order(u1, u2) <= 0);
        assert(term_body_order(u2, u1) <= 0);
        lemma_body_order_swap(u1, u2);
        lemma_candidate_ranks(c, fixed, term, u1, a1);
        lemma_candidate_ranks(c, fixed, term, u2, a2);
        lemma_body_order_zero(c, u1, u2);
        if a1 != a2 {
            if a1 == SymmetryAction::Identity {
                assert(sign_conflict(c, fixed, term));
            } else {
                assert(a2 == SymmetryAction::Identity);
                assert(sign_conflict(c, fixed, term));
            }
        }
    }
}

/// Canonicalize one tensor product term while preserving its fixed indices.
///
/// Factors are ordered first by tensor identity, all orders among equal
/// tensors and all symmetry variants are explored, summed indices are renamed
/// by first occurrence, and the smallest candidate is retained. `None`
/// denotes a zero term, including one fixed by a sign-negating symmetry.
#[verifier::loop_isolation(false)]
#[verifier::spinoff_prover]
#[verifier::rlimit(100)]
pub fn canon_term(computation: &Computation, fixed_indices: &[Index], term: &Term) -> (r: Result<
    Option<Term>,
    CanonError,
>)
    ensures
        !term_context_valid(computation@, fixed_indices@, term@) ==> r is Err && !(r matches Err(
            CanonError::ExhaustedIndexIds,
        )),
        r matches Err(CanonError::ExhaustedIndexIds) ==> ids_short(fixed_indices@, term@.sums.len() as int),
        r matches Err(e) ==> (e is ExhaustedIndexIds || context_error(computation@, fixed_indices@, term@, e)),
        term_context_valid(computation@, fixed_indices@, term@) ==> r is Ok || r matches Err(
            CanonError::ExhaustedIndexIds,
        ),
        term_context_valid(computation@, fixed_indices@, term@) && is_zero_value(term@.coeff)
            ==> r matches Ok(None),
        r matches Ok(Some(t)) ==> canonical_shape(computation@, fixed_indices@, term@, t@),
        r matches Ok(x) ==> canonical_form(
            computation@,
            fixed_indices@,
            term@,
            match x {
                Some(t) => Some(t@),
                None => None,
            },
        ),
{
    match check_context(computation, fixed_indices, term) {
        Ok(()) => {},
        Err(e) => {
            return Err(e);
        },
    }
    if term.coeff.is_zero() {
        return Ok(None);
    }
    proof {
        assert forall|f: int| 0 <= f < term.factors.len() implies {
            let info = lookup_tensor(computation@.tensors, (#[trigger] term.factors@[f]).tensor);
            &&& info is Some
            &&& info.unwrap().rank == term.factors@[f].indices.len()
            &&& info_valid(info.unwrap())
        } by {
            assert(term@.factors[f] == term.factors@[f]@);
        }
    }
    let variants = symmetry_variants(computation, &term.factors);
    let mut tensor_ids: Vec<TensorId> = Vec::new();
    let mut i: usize = 0;
    while i < term.factors.len()
        invariant
            i <= term.factors.len(),
            tensor_ids@.len() == i,
            forall|k: int| 0 <= k < i ==> tensor_ids@[k] == #[trigger] term.factors@[k].tensor,
        decreases term.factors.len() - i,
    {
        tensor_ids.push(term.factors[i].tensor);
        i = i + 1;
    }
    let orders = best_factor_orders(&tensor_ids);
    let n = term.factors.len();
    let ghost choices = choices_view(variants@);
    let ghost fixed = fixed_indices@;
    let ghost tv = term@;
    proof {
        assert(tensor_ids@ =~= tensors_of(tv.factors)) by {
            assert forall|k: int| 0 <= k < tensor_ids@.len() implies tensor_ids@[k] == tensors_of(tv.factors)[k] by {
                assert(tv.factors[k] == term.factors@[k]@);
            }
        }
        assert(tv.factors == factors_view(term.factors@));
    }
    let mut best: Option<Term> = None;
    let mut saw_identity = false;
    let mut saw_negate = false;
    let mut v: usize = 0;
    while v < variants.len()
        invariant
            v <= variants.len(),
            v > 0 ==> best is Some,
            best matches Some(b) ==> arranges_term(computation@, fixed_indices@, term@, b@) && b@.coeff == term@.coeff,
            choices == choices_view(variants@),
            fixed == fixed_indices@,
            tv == term@,
            v == 0 <==> best is None,
            best matches Some(b) ==> minimal_so_far(fixed, tv, choices, orders@, v as int, 0, b@) && reached(
                fixed,
                tv,
                choices,
                orders@,
                v as int,
                0,
                b@,
            ),
            best matches Some(b) ==> saw_identity == flagged(fixed, tv, choices, orders@, v as int, 0, b@, SymmetryAction::Identity)
                && saw_negate == flagged(fixed, tv, choices, orders@, v as int, 0, b@, SymmetryAction::Negate),
        decreases variants.len() - v,
    {
        let variant_factors = &variants[v].0;
        let action = variants[v].1;
        let mut o: usize = 0;
        while o < orders.len()
            invariant
                v < variants.len(),
                o <= orders.len(),
                v > 0 || o > 0 ==> best is Some,
                best matches Some(b) ==> arranges_term(computation@, fixed_indices@, term@, b@) && b@.coeff == term@.coeff,
                choices == choices_view(variants@),
                fixed == fixed_indices@,
                tv == term@,
                (v == 0 && o == 0) <==> best is None,
                best matches Some(b) ==> minimal_so_far(fixed, tv, choices, orders@, v as int, o as int, b@) && reached(
                    fixed,
                    tv,
                    choices,
                    orders@,
                    v as int,
                    o as int,
                    b@,
                ),
                best matches Some(b) ==> saw_identity == flagged(fixed, tv, choices, orders@, v as int, o as int, b@, SymmetryAction::Identity)
                    && saw_negate == flagged(fixed, tv, choices, orders@, v as int, o as int, b@, SymmetryAction::Negate),
            decreases orders.len() - o,
        {
            let order = &orders[o];
            assert(perm_valid(order@, n as nat));
            let factors = arrange_factors(variant_factors, order);
            let sums = term.sums.clone();
            assert(sums@ =~= term.sums@);
            let input = Term { sums, coeff: term.coeff.clone(), factors };
            proof {
                assert forall|f: int, k: int|
                    0 <= f < input.factors.len() && 0 <= k < input.factors@[f].indices.len() implies has_id(
                        fixed_indices@,
                        #[trigger] input.factors@[f].indices@[k],
                    ) || has_id(input.sums@, input.factors@[f].indices@[k]) by {
                    let src = order@[f] as int;
                    assert(rearranges(variant_factors@[src]@, term.factors@[src]@));
                    assert(input.factors@[f]@ == variant_factors@[src]@);
                    assert(term.factors@[src]@.indices.contains(input.factors@[f].indices@[k]));
                    let j = choose|j: int| 0 <= j < term.factors@[src].indices@.len() && term.factors@[src].indices@[j] == input.factors@[f].indices@[k];
                    assert(term@.factors[src] == term.factors@[src]@);
                    assert(factor_valid(computation@, fixed_indices@, term@.sums, term@.factors[src]));
                }
            }
            let ghost input_view = input@;
            proof {
                assert(input_view.factors =~= Seq::new(order@.len(), |k: int| choices[v as int].0[order@[k] as int])) by {
                    assert forall|k: int| 0 <= k < order@.len() implies input_view.factors[k] == choices[v as int].0[order@[k] as int] by {
                        assert(input_view.factors[k] == input.factors@[k]@);
                        assert(choices[v as int].0 == factors_view(variants@[v as int].0@));
                    }
                }
                assert(input_view.sums == tv.sums);
                assert(input_view.coeff == tv.coeff);
                assert(orders@[o as int]@ == order@);
            }
            let candidate = match rename_dummies(input, fixed_indices) {
                Ok(candidate) => candidate,
                Err(e) => {
                    return Err(e);
                },
            };
            assert(candidate@ == candidate_at(fixed, tv, choices, orders@, v as int, o as int));
            proof {
                let t = candidate@;
                assert forall|i: int| 0 <= i < t.factors.len() implies (#[trigger] t.factors[i]).tensor
                    == term@.factors[order@[i] as int].tensor && t.factors[i].indices.len()
                    == term@.factors[order@[i] as int].indices.len() by {
                    let src = order@[i] as int;
                    assert(input@.factors[i] == input.factors@[i]@);
                    assert(rearranges(variant_factors@[src]@, term.factors@[src]@));
                    assert(term@.factors[src] == term.factors@[src]@);
                }
                assert forall|a: int, b: int| 0 <= a < b < t.factors.len() implies (#[trigger] t.factors[a]).tensor.0 <= (
                    #[trigger] t.factors[b]).tensor.0 by {
                    assert(tensor_ids@[order@[a] as int] == term.factors@[order@[a] as int].tensor);
                    assert(tensor_ids@[order@[b] as int] == term.factors@[order@[b] as int].tensor);
                    assert(term@.factors[order@[a] as int] == term.factors@[order@[a] as int]@);
                    assert(term@.factors[order@[b] as int] == term.factors@[order@[b] as int]@);
                }
                assert forall|f: int| 0 <= f < t.factors.len() implies factor_valid(computation@, fixed_indices@, t.sums, #[trigger] t.factors[f]) by {
                    let src = order@[f] as int;
                    assert(term@.factors[src] == term.factors@[src]@);
                    assert(factor_valid(computation@, fixed_indices@, term@.sums, term@.factors[src]));
                    assert forall|k: int| 0 <= k < t.factors[f].indices.len() implies has_id(fixed_indices@, #[trigger] t.factors[f].indices[k]) || has_id(t.sums, t.factors[f].indices[k]) by {}
                }
                assert(perm_valid(order@, term@.factors.len()));
                assert(arranges_term(computation@, fixed_indices@, term@, t));
            }
            let ghost here = candidate@;
            proof {
                assert(choices[v as int].1 == action);
                assert(here == candidate_at(fixed, tv, choices, orders@, v as int, o as int));
            }
            match &best {
                None => {
                    saw_identity = action == SymmetryAction::Identity;
                    saw_negate = action == SymmetryAction::Negate;
                    best = Some(candidate);
                    proof {
                        lemma_search_first(fixed, tv, choices, orders@, v as int, o as int);
                    }
                },
                Some(current) => {
                    let ghost old_best = current@;
                    let order = compare_term_bodies(&candidate, current);
                    proof {
                        lemma_body_order_swap(here, old_best);
                    }
                    if order < 0 {
                        saw_identity = action == SymmetryAction::Identity;
                        saw_negate = action == SymmetryAction::Negate;
                        best = Some(candidate);
                        proof {
                            lemma_search_smaller(fixed, tv, choices, orders@, v as int, o as int, old_best);
                        }
                    } else {
                        if order == 0 {
                            match action {
                                SymmetryAction::Identity => saw_identity = true,
                                SymmetryAction::Negate => saw_negate = true,
                            }
                        }
                        proof {
                            lemma_search_keep(fixed, tv, choices, orders@, v as int, o as int, old_best);
                        }
                    }
                },
            }
            o = o + 1;
        }
        v = v + 1;
    }
    let ghost c = computation@;
    proof {
        lemma_search_covers_candidates(c, fixed, tv, choices, orders@, tensor_ids@);
    }
    if saw_identity && saw_negate {
        proof {
            let b = best->Some_0@;
            lemma_flagged_smallest(c, fixed, tv, choices, orders@, b, SymmetryAction::Identity);
            lemma_flagged_smallest(c, fixed, tv, choices, orders@, b, SymmetryAction::Negate);
        }
        return Ok(None);
    }
    match best {
        None => Ok(None),
        Some(mut best) => {
            let ghost b = best@;
            proof {
                lemma_no_conflict(c, fixed, tv, choices, orders@, b, saw_identity, saw_negate);
            }
            if saw_negate {
                best.coeff = best.coeff.neg();
            }
            Ok(Some(best))
        },
    }
}


/// Whether two terms have the same summed indices and factors.
pub fn same_body(a: &Term, b: &Term) -> (r: bool)
    ensures
        r == (a@.sums == b@.sums && a@.factors == b@.factors),
{
    assert(a@.factors.len() == a.factors.len() && b@.factors.len() == b.factors.len());
    if a.sums.len() != b.sums.len() || a.factors.len() != b.factors.len() {
        return false;
    }
    let mut k: usize = 0;
    while k < a.sums.len()
        invariant
            k <= a.sums.len() == b.sums.len(),
            forall|j: int| 0 <= j < k ==> a.sums@[j] == b.sums@[j],
        decreases a.sums.len() - k,
    {
        if a.sums[k] != b.sums[k] {
            return false;
        }
        k = k + 1;
    }
    assert(a.sums@ =~= b.sums@);
    let mut f: usize = 0;
    while f < a.factors.len()
        invariant
            f <= a.factors.len() == b.factors.len(),
            a.sums@ == b.sums@,
            forall|j: int| 0 <= j < f ==> a@.factors[j] == b@.factors[j],
        decreases a.factors.len() - f,
    {
        assert(a@.factors[f as int] == a.factors@[f as int]@);
        assert(b@.factors[f as int] == b.factors@[f as int]@);
        if !same_factor(&a.factors[f], &b.factors[f]) {
            return false;
        }
        f = f + 1;
    }
    assert(a@.factors =~= b@.factors);
    true
}

/// Order two factors by tensor, then by index identities.
pub open spec fn factor_order(a: TensorRefView, b: TensorRefView) -> int {
    if a.tensor.0 != b.tensor.0 {
        int_order(a.tensor.0 as int, b.tensor.0 as int)
    } else {
        lex_order(id_keys(a.indices), id_keys(b.indices))
    }
}

/// The lexicographic order of factor lists under [`factor_order`], a
/// proper prefix coming first.
pub open spec fn factors_order(a: Seq<TensorRefView>, b: Seq<TensorRefView>) -> int
    decreases a.len(),
{
    if a.len() == 0 {
        if b.len() == 0 {
            0
        } else {
            -1
        }
    } else if b.len() == 0 {
        1
    } else if factor_order(a[0], b[0]) != 0 {
        factor_order(a[0], b[0])
    } else {
        factors_order(a.drop_first(), b.drop_first())
    }
}

/// Order two terms by their summed indices, then by their factors.
pub open spec fn sums_and_factors_order(a: TermView, b: TermView) -> int {
    let sums = lex_order(sum_key_seq(a.sums), sum_key_seq(b.sums));
    if sums != 0 {
        sums
    } else {
        factors_order(a.factors, b.factors)
    }
}

/// Swapping two factors negates their order.
proof fn lemma_factor_order_swap(a: TensorRefView, b: TensorRefView)
    ensures
        factor_order(a, b) == -factor_order(b, a),
        -1 <= factor_order(a, b) <= 1,
{
    lemma_lex_order_swap(id_keys(a.indices), id_keys(b.indices));
    lemma_lex_order_zero(id_keys(a.indices), id_keys(b.indices));
}

/// The order of factors is transitive, strictly where either step is strict.
proof fn lemma_factor_order_trans(a: TensorRefView, b: TensorRefView, c: TensorRefView)
    requires
        factor_order(a, b) <= 0,
        factor_order(b, c) <= 0,
    ensures
        factor_order(a, c) <= 0,
        factor_order(a, b) < 0 || factor_order(b, c) < 0 ==> factor_order(a, c) < 0,
{
    if a.tensor.0 == b.tensor.0 && b.tensor.0 == c.tensor.0 {
        lemma_lex_order_trans(id_keys(a.indices), id_keys(b.indices), id_keys(c.indices));
    }
}

/// Swapping two factor lists negates their order.
proof fn lemma_factors_order_swap(a: Seq<TensorRefView>, b: Seq<TensorRefView>)
    ensures
        factors_order(a, b) == -factors_order(b, a),
    decreases a.len(),
{
    if a.len() > 0 && b.len() > 0 {
        lemma_factor_order_swap(a[0], b[0]);
        if factor_order(a[0], b[0]) == 0 {
            lemma_factors_order_swap(a.drop_first(), b.drop_first());
        }
    }
}

/// The order of factor lists is transitive.
proof fn lemma_factors_order_trans(a: Seq<TensorRefView>, b: Seq<TensorRefView>, c: Seq<TensorRefView>)
    requires
        factors_order(a, b) <= 0,
        factors_order(b, c) <= 0,
    ensures
        factors_order(a, c) <= 0,
        factors_order(a, b) < 0 || factors_order(b, c) < 0 ==> factors_order(a, c) < 0,
    decreases a.len(),
{
    if a.len() > 0 && b.len() > 0 && c.len() > 0 {
        lemma_factor_order_swap(a[0], b[0]);
        lemma_factor_order_swap(b[0], c[0]);
        lemma_factor_order_swap(a[0], c[0]);
        lemma_factor_order_trans(a[0], b[0], c[0]);
        if factor_order(a[0], b[0]) == 0 && factor_order(b[0], c[0]) == 0 {
            lemma_factors_order_trans(a.drop_first(), b.drop_first(), c.drop_first());
        }
    }
}

/// Swapping two terms negates their order by sums and factors.
pub proof fn lemma_sums_factors_swap(a: TermView, b: TermView)
    ensures
        sums_and_factors_order(a, b) == -sums_and_factors_order(b, a),
{
    lemma_lex_order_swap(sum_key_seq(a.sums), sum_key_seq(b.sums));
    lemma_factors_order_swap(a.factors, b.factors);
}

/// The order of terms by sums and factors is transitive.
pub proof fn lemma_sums_factors_trans(a: TermView, b: TermView, c: TermView)
    requires
        sums_and_factors_order(a, b) <= 0,
        sums_and_factors_order(b, c) <= 0,
    ensures
        sums_and_factors_order(a, c) <= 0,
{
    let (sa, sb, sc) = (sum_key_seq(a.sums), sum_key_seq(b.sums), sum_key_seq(c.sums));
    lemma_lex_order_zero(sa, sb);
    lemma_lex_order_zero(sb, sc);
    lemma_lex_order_zero(sa, sc);
    lemma_lex_order_trans(sa, sb, sc);
    if lex_order(sa, sb) == 0 && lex_order(sb, sc) == 0 {
        lemma_factors_order_trans(a.factors, b.factors, c.factors);
    }
}

/// Factor lists of order zero are equal.
proof fn lemma_factors_order_zero(a: Seq<TensorRefView>, b: Seq<TensorRefView>)
    requires
        factors_order(a, b) == 0,
    ensures
        a == b,
    decreases a.len(),
{
    if a.len() > 0 && b.len() > 0 {
        assert(a[0].tensor.0 == b[0].tensor.0);
        lemma_lex_order_zero(id_keys(a[0].indices), id_keys(b[0].indices));
        lemma_id_keys_injective(a[0].indices, b[0].indices);
        lemma_factors_order_zero(a.drop_first(), b.drop_first());
        assert(a =~= b) by {
            assert forall|i: int| 0 <= i < a.len() implies a[i] == b[i] by {
                if i > 0 {
                    assert(a[i] == a.drop_first()[i - 1]);
                    assert(b[i] == b.drop_first()[i - 1]);
                }
            }
        }
    } else {
        assert(a.len() == 0 && b.len() == 0);
        assert(a =~= b);
    }
}

/// Terms of order zero by summed indices and factors have the same body.
pub proof fn lemma_sums_factors_zero(a: TermView, b: TermView)
    requires
        sums_and_factors_order(a, b) == 0,
    ensures
        a.sums == b.sums,
        a.factors == b.factors,
{
    lemma_lex_order_zero(sum_key_seq(a.sums), sum_key_seq(b.sums));
    lemma_sum_keys_determine(a.sums, b.sums);
    lemma_factors_order_zero(a.factors, b.factors);
}

/// No two terms of `terms` have the same body.
pub open spec fn distinct_bodies(terms: Seq<TermView>) -> bool {
    forall|a: int, b: int|
        0 <= a < terms.len() && 0 <= b < terms.len() && a != b ==> !((#[trigger] terms[a]).sums
            == (#[trigger] terms[b]).sums && terms[a].factors == terms[b].factors)
}

/// The terms are in nondecreasing order by summed indices and factors.
pub open spec fn sorted_by_sums_and_factors(terms: Seq<TermView>) -> bool {
    forall|a: int, b: int|
        0 <= a < b < terms.len() ==> sums_and_factors_order(#[trigger] terms[a], #[trigger] terms[b]) <= 0
}

/// Two sorted lists of terms with distinct bodies that hold the same terms
/// are equal.
pub proof fn lemma_sorted_terms_unique(x: Seq<TermView>, y: Seq<TermView>)
    requires
        sorted_by_sums_and_factors(x),
        sorted_by_sums_and_factors(y),
        distinct_bodies(x),
        distinct_bodies(y),
        forall|t: TermView| x.contains(t) <==> y.contains(t),
    ensures
        x == y,
    decreases x.len(),
{
    if x.len() == 0 {
        if y.len() > 0 {
            assert(y.contains(y[0]));
        }
        assert(x =~= y);
    } else if y.len() == 0 {
        assert(x.contains(x[0]));
    } else {
        assert(x.contains(x[0]));
        assert(y.contains(x[0]));
        let j = choose|j: int| 0 <= j < y.len() && y[j] == x[0];
        assert(y.contains(y[0]));
        assert(x.contains(y[0]));
        let i = choose|i: int| 0 <= i < x.len() && x[i] == y[0];
        if i != 0 {
            assert(sums_and_factors_order(x[0], x[i]) <= 0);
            if j != 0 {
                assert(sums_and_factors_order(y[0], y[j]) <= 0);
            }
            lemma_sums_factors_swap(x[0], x[i]);
            lemma_sums_factors_zero(x[0], x[i]);
            assert(false);
        }
        let x1 = x.drop_first();
        let y1 = y.drop_first();
        assert forall|t: TermView| x1.contains(t) <==> y1.contains(t) by {
            if x1.contains(t) {
                let k = choose|k: int| 0 <= k < x1.len() && x1[k] == t;
                assert(x[k + 1] == t);
                assert(x.contains(t));
                let m = choose|m: int| 0 <= m < y.len() && y[m] == t;
                assert(m != 0);
                assert(y1[m - 1] == t);
            }
            if y1.contains(t) {
                let k = choose|k: int| 0 <= k < y1.len() && y1[k] == t;
                assert(y[k + 1] == t);
                assert(y.contains(t));
                let m = choose|m: int| 0 <= m < x.len() && x[m] == t;
                assert(m != 0);
                assert(x1[m - 1] == t);
            }
        }
        assert forall|a: int, b: int| 0 <= a < b < x1.len() implies sums_and_factors_order(
            #[trigger] x1[a],
            #[trigger] x1[b],
        ) <= 0 by {
            assert(x1[a] == x[a + 1] && x1[b] == x[b + 1]);
        }
        assert forall|a: int, b: int| 0 <= a < b < y1.len() implies sums_and_factors_order(
            #[trigger] y1[a],
            #[trigger] y1[b],
        ) <= 0 by {
            assert(y1[a] == y[a + 1] && y1[b] == y[b + 1]);
        }
        assert forall|a: int, b: int|
            0 <= a < x1.len() && 0 <= b < x1.len() && a != b implies !((#[trigger] x1[a]).sums
            == (#[trigger] x1[b]).sums && x1[a].factors == x1[b].factors) by {
            assert(x1[a] == x[a + 1] && x1[b] == x[b + 1]);
        }
        assert forall|a: int, b: int|
            0 <= a < y1.len() && 0 <= b < y1.len() && a != b implies !((#[trigger] y1[a]).sums
            == (#[trigger] y1[b]).sums && y1[a].factors == y1[b].factors) by {
            assert(y1[a] == y[a + 1] && y1[b] == y[b + 1]);
        }
        lemma_sorted_terms_unique(x1, y1);
        assert(x =~= y) by {
            assert forall|k: int| 0 <= k < x.len() implies x[k] == y[k] by {
                if k > 0 {
                    assert(x[k] == x1[k - 1]);
                    assert(y[k] == y1[k - 1]);
                }
            }
        }
    }
}

/// A reordering holds the same terms as what it reorders.
proof fn lemma_reordering_contains(v: Seq<TermView>, w: Seq<TermView>)
    requires
        is_reordering(v, w),
    ensures
        forall|t: TermView| v.contains(t) <==> w.contains(t),
{
    let order = choose|order: Seq<usize>|
        #[trigger] perm_valid(order, w.len()) && v.len() == w.len() && forall|x: int|
            0 <= x < v.len() ==> v[x] == w[order[x] as int];
    assert forall|t: TermView| v.contains(t) <==> w.contains(t) by {
        if v.contains(t) {
            let x = choose|x: int| 0 <= x < v.len() && v[x] == t;
            assert(w[order[x] as int] == t);
        }
        if w.contains(t) {
            let j = choose|j: int| 0 <= j < w.len() && w[j] == t;
            crate::count::lemma_perm_onto(order, w.len(), j);
            let x = choose|x: int| 0 <= x < w.len() && #[trigger] order[x] == j;
            assert(v[x] == t);
        }
    }
}

/// A list of terms has at most one canonical sum among the lists with
/// distinct bodies.
pub proof fn lemma_canonical_sum_terms_unique(
    c: ComputationView,
    fixed: Seq<Index>,
    terms: Seq<TermView>,
    cs1: Seq<Option<TermView>>,
    cs2: Seq<Option<TermView>>,
    rhs1: Seq<TermView>,
    rhs2: Seq<TermView>,
)
    requires
        canonical_choices(c, fixed, terms, cs1),
        canonical_choices(c, fixed, terms, cs2),
        is_reordering(rhs1, drop_zeros(merge(cs1))),
        is_reordering(rhs2, drop_zeros(merge(cs2))),
        sorted_by_sums_and_factors(rhs1),
        sorted_by_sums_and_factors(rhs2),
        distinct_bodies(rhs1),
        distinct_bodies(rhs2),
    ensures
        rhs1 == rhs2,
{
    assert(cs1 =~= cs2) by {
        assert forall|i: int| 0 <= i < cs1.len() implies cs1[i] == cs2[i] by {
            assert(canonical_choice(c, fixed, terms[i], cs1[i]));
            assert(canonical_choice(c, fixed, terms[i], cs2[i]));
            lemma_canonical_form_unique(c, fixed, terms[i], cs1[i], cs2[i]);
        }
    }
    lemma_reordering_contains(rhs1, drop_zeros(merge(cs1)));
    lemma_reordering_contains(rhs2, drop_zeros(merge(cs2)));
    lemma_sorted_terms_unique(rhs1, rhs2);
}

proof fn lemma_factors_step(a: Seq<TensorRefView>, b: Seq<TensorRefView>, k: int)
    requires
        0 <= k <= a.len(),
        k <= b.len(),
    ensures
        k < a.len() && k < b.len() && factor_order(a[k], b[k]) != 0 ==> factors_order(a.skip(k), b.skip(k))
            == factor_order(a[k], b[k]),
        k < a.len() && k < b.len() && factor_order(a[k], b[k]) == 0 ==> factors_order(a.skip(k), b.skip(k))
            == factors_order(a.skip(k + 1), b.skip(k + 1)),
        k == a.len() && k == b.len() ==> factors_order(a.skip(k), b.skip(k)) == 0,
        k == a.len() && k < b.len() ==> factors_order(a.skip(k), b.skip(k)) == -1,
        k < a.len() && k == b.len() ==> factors_order(a.skip(k), b.skip(k)) == 1,
        factors_order(a.skip(0), b.skip(0)) == factors_order(a, b),
{
    assert(a.skip(0) =~= a);
    assert(b.skip(0) =~= b);
    if k < a.len() && k < b.len() {
        assert(a.skip(k).drop_first() =~= a.skip(k + 1));
        assert(b.skip(k).drop_first() =~= b.skip(k + 1));
        assert(a.skip(k)[0] == a[k]);
        assert(b.skip(k)[0] == b[k]);
    }
}

fn compare_factor_lists(a: &Vec<TensorRef>, b: &Vec<TensorRef>) -> (r: i8)
    ensures
        -1 <= r <= 1,
        r == factors_order(factors_view(a@), factors_view(b@)),
{
    let ghost fa = factors_view(a@);
    let ghost fb = factors_view(b@);
    proof {
        lemma_factors_step(fa, fb, 0);
    }
    let mut k: usize = 0;
    while k < a.len() && k < b.len()
        invariant
            k <= a.len(),
            k <= b.len(),
            fa == factors_view(a@),
            fb == factors_view(b@),
            factors_order(fa, fb) == factors_order(fa.skip(k as int), fb.skip(k as int)),
        decreases a.len() - k,
    {
        proof {
            lemma_factors_step(fa, fb, k as int);
            assert(fa[k as int] == a@[k as int]@);
            assert(fb[k as int] == b@[k as int]@);
        }
        if a[k].tensor.0 < b[k].tensor.0 {
            return -1;
        }
        if a[k].tensor.0 > b[k].tensor.0 {
            return 1;
        }
        let order = compare_index_ids(&a[k].indices, &b[k].indices);
        if order != 0 {
            return order;
        }
        k = k + 1;
    }
    proof {
        lemma_factors_step(fa, fb, k as int);
    }
    if a.len() < b.len() {
        -1
    } else if a.len() > b.len() {
        1
    } else {
        0
    }
}

/// Order two terms by their summed indices, then by their factors.
pub fn compare_sums_and_factors(a: &Term, b: &Term) -> (r: i8)
    ensures
        -1 <= r <= 1,
        r == sums_and_factors_order(a@, b@),
{
    let order = compare_u32s(&sum_keys(&a.sums), &sum_keys(&b.sums));
    if order != 0 {
        return order;
    }
    compare_factor_lists(&a.factors, &b.factors)
}

/// The positions of `terms`, stably sorted by summed indices and factors.
fn sort_term_positions(terms: &Vec<Term>) -> (r: Vec<usize>)
    ensures
        perm_valid(r@, terms.len() as nat),
        forall|a: int, b: int|
            0 <= a < b < r.len() ==> sums_and_factors_order(terms@[#[trigger] r@[a] as int]@, terms@[#[trigger] r@[b] as int]@) <= 0,
{
    let mut order: Vec<usize> = Vec::new();
    let mut i: usize = 0;
    while i < terms.len()
        invariant
            i <= terms.len(),
            order@.len() == i,
            forall|k: int| 0 <= k < i ==> #[trigger] order@[k] < i,
            forall|a: int, b: int| 0 <= a < i && 0 <= b < i && a != b ==> #[trigger] order@[a] != #[trigger] order@[b],
            forall|a: int, b: int|
                0 <= a < b < i ==> sums_and_factors_order(terms@[#[trigger] order@[a] as int]@, terms@[#[trigger] order@[b] as int]@) <= 0,
        decreases terms.len() - i,
    {
        let mut at: usize = 0;
        while at < order.len() && compare_sums_and_factors(&terms[order[at]], &terms[i]) <= 0
            invariant
                at <= order.len() == i,
                i < terms.len(),
                forall|k: int| 0 <= k < i ==> #[trigger] order@[k] < i,
                forall|a: int| 0 <= a < at ==> sums_and_factors_order(terms@[#[trigger] order@[a] as int]@, terms@[i as int]@) <= 0,
            decreases order.len() - at,
        {
            at = at + 1;
        }
        let ghost old_order = order@;
        proof {
            if at < i {
                assert(sums_and_factors_order(terms@[old_order[at as int] as int]@, terms@[i as int]@) > 0);
                lemma_sums_factors_swap(terms@[old_order[at as int] as int]@, terms@[i as int]@);
            }
        }
        order.insert(at, i);
        proof {
            let x = terms@[i as int]@;
            assert forall|a: int, b: int| 0 <= a < b < i + 1 implies sums_and_factors_order(
                terms@[#[trigger] order@[a] as int]@,
                terms@[#[trigger] order@[b] as int]@,
            ) <= 0 by {
                if b < at {
                    assert(order@[a] == old_order[a] && order@[b] == old_order[b]);
                } else if b == at {
                    assert(order@[a] == old_order[a]);
                } else if a > at {
                    assert(order@[a] == old_order[a - 1] && order@[b] == old_order[b - 1]);
                } else if a == at {
                    assert(order@[b] == old_order[b - 1]);
                    let y = terms@[old_order[at as int] as int]@;
                    if b - 1 > at {
                        assert(sums_and_factors_order(y, terms@[old_order[b - 1] as int]@) <= 0);
                        lemma_sums_factors_trans(x, y, terms@[old_order[b - 1] as int]@);
                    }
                } else {
                    assert(order@[a] == old_order[a]);
                    assert(order@[b] == old_order[b - 1]);
                    let y = terms@[old_order[at as int] as int]@;
                    assert(sums_and_factors_order(terms@[old_order[a] as int]@, x) <= 0);
                    if b - 1 > at {
                        assert(sums_and_factors_order(y, terms@[old_order[b - 1] as int]@) <= 0);
                        lemma_sums_factors_trans(x, y, terms@[old_order[b - 1] as int]@);
                    }
                    lemma_sums_factors_trans(terms@[old_order[a] as int]@, x, terms@[old_order[b - 1] as int]@);
                }
            }
            assert(order@ =~= old_order.insert(at as int, i));
            assert forall|a: int, b: int| 0 <= a < i + 1 && 0 <= b < i + 1 && a != b implies #[trigger] order@[a]
                != #[trigger] order@[b] by {
                if a != at && b != at {
                    let oa = if a < at { a } else { a - 1 };
                    let ob = if b < at { b } else { b - 1 };
                    assert(order@[a] == old_order[oa]);
                    assert(order@[b] == old_order[ob]);
                } else if a == at {
                    let ob = if b < at { b } else { b - 1 };
                    assert(order@[b] == old_order[ob]);
                } else {
                    let oa = if a < at { a } else { a - 1 };
                    assert(order@[a] == old_order[oa]);
                }
            }
            assert forall|k: int| 0 <= k < i + 1 implies #[trigger] order@[k] < i + 1 by {
                if k < at {
                } else if k > at {
                    assert(order@[k] == old_order[k - 1]);
                }
            }
        }
        i = i + 1;
    }
    order
}

/// `t` arranges one of the `sources`.
pub open spec fn arranges_some(
    c: ComputationView,
    fixed: Seq<Index>,
    sources: Seq<TermView>,
    t: TermView,
) -> bool {
    exists|j: int| 0 <= j < sources.len() && #[trigger] arranges_term(c, fixed, sources[j], t)
}

/// The terms of a canonical expression: valid in their scope, nonzero, each
/// an arrangement of some source term, with pairwise distinct bodies.
pub open spec fn canonical_terms(
    c: ComputationView,
    fixed: Seq<Index>,
    sources: Seq<TermView>,
    terms: Seq<TermView>,
) -> bool {
    &&& forall|k: int| 0 <= k < terms.len() ==> !is_zero_value((#[trigger] terms[k]).coeff)
    &&& forall|k: int| 0 <= k < terms.len() ==> arranges_some(c, fixed, sources, #[trigger] terms[k])
    &&& forall|a: int, b: int|
        0 <= a < terms.len() && 0 <= b < terms.len() && a != b ==> !((#[trigger] terms[a]).sums
            == (#[trigger] terms[b]).sums && terms[a].factors == terms[b].factors)
}

/// Two terms have the same summed indices and factors.
pub open spec fn same_body_view(a: TermView, b: TermView) -> bool {
    a.sums == b.sums && a.factors == b.factors
}

/// The outcome of [`canon_term`] for a term: its canonical form, or nothing
/// for a zero term.
pub open spec fn canonical_choice(c: ComputationView, fixed: Seq<Index>, term: TermView, o: Option<TermView>) -> bool {
    &&& term_context_valid(c, fixed, term)
    &&& is_zero_value(term.coeff) ==> o is None
    &&& o matches Some(t) ==> canonical_shape(c, fixed, term, t)
    &&& canonical_form(c, fixed, term, o)
}

/// One allowed outcome for each source term.
pub open spec fn canonical_choices(
    c: ComputationView,
    fixed: Seq<Index>,
    sources: Seq<TermView>,
    cs: Seq<Option<TermView>>,
) -> bool {
    &&& cs.len() == sources.len()
    &&& forall|i: int| 0 <= i < cs.len() ==> canonical_choice(c, fixed, sources[i], #[trigger] cs[i])
}

/// Canonical terms merged in order: a term whose body is already present
/// adds its coefficient to that entry, and any other term is appended.
pub open spec fn merge(cs: Seq<Option<TermView>>) -> Seq<TermView>
    decreases cs.len(),
{
    if cs.len() == 0 {
        Seq::empty()
    } else {
        let prev = merge(cs.drop_last());
        match cs.last() {
            None => prev,
            Some(t) => if exists|q: int| 0 <= q < prev.len() && same_body_view(#[trigger] prev[q], t) {
                let q = choose|q: int| 0 <= q < prev.len() && same_body_view(#[trigger] prev[q], t);
                prev.update(
                    q,
                    TermView { sums: prev[q].sums, coeff: crate::coeff::ratio_sum(prev[q].coeff, t.coeff), factors: prev[q].factors },
                )
            } else {
                prev.push(t)
            },
        }
    }
}

/// The terms whose coefficient is not zero, in order.
pub open spec fn drop_zeros(terms: Seq<TermView>) -> Seq<TermView>
    decreases terms.len(),
{
    if terms.len() == 0 {
        Seq::empty()
    } else if is_zero_value(terms.last().coeff) {
        drop_zeros(terms.drop_last())
    } else {
        drop_zeros(terms.drop_last()).push(terms.last())
    }
}

/// `v` lists the terms of `w` in some order.
pub open spec fn is_reordering(v: Seq<TermView>, w: Seq<TermView>) -> bool {
    exists|order: Seq<usize>|
        #[trigger] perm_valid(order, w.len()) && v.len() == w.len() && forall|x: int|
            0 <= x < v.len() ==> v[x] == w[order[x] as int]
}

/// Canonicalize a linear expression while preserving its fixed indices.
///
/// Terms are canonicalized with [`canon_term`], equal term bodies are merged,
/// zero terms are removed, and the result is sorted deterministically.
#[verifier::loop_isolation(false)]
pub fn canon_expr(computation: &Computation, fixed_indices: &[Index], terms: &[Term]) -> (r: Result<
    Vec<Term>,
    CanonError,
>)
    ensures
        (forall|k: int|
            0 <= k < terms.len() ==> term_context_valid(
                computation@,
                fixed_indices@,
                #[trigger] terms@[k]@,
            )) ==> r is Ok || r matches Err(CanonError::ExhaustedIndexIds),
        r matches Err(e) ==> e is ExhaustedIndexIds || exists|k: int|
            0 <= k < terms.len() && !term_context_valid(
                computation@,
                fixed_indices@,
                #[trigger] terms@[k]@,
            ),
        r matches Err(CanonError::ExhaustedIndexIds) ==> exists|k: int|
            0 <= k < terms.len() && ids_short(fixed_indices@, (#[trigger] terms@[k]@).sums.len() as int),
        r matches Ok(v) ==> canonical_terms(
            computation@,
            fixed_indices@,
            crate::repr::terms_view(terms@),
            crate::repr::terms_view(v@),
        ),
        r matches Ok(v) ==> exists|cs: Seq<Option<TermView>>|
            #[trigger] canonical_choices(computation@, fixed_indices@, crate::repr::terms_view(terms@), cs)
                && is_reordering(crate::repr::terms_view(v@), drop_zeros(merge(cs))),
        r matches Ok(v) ==> forall|a: int, b: int|
            0 <= a < b < v.len() ==> sums_and_factors_order(#[trigger] v@[a]@, #[trigger] v@[b]@) <= 0,
{
    let ghost sources = crate::repr::terms_view(terms@);
    let ghost mut cs: Seq<Option<TermView>> = Seq::empty();
    let mut merged: Vec<Term> = Vec::new();
    let mut i: usize = 0;
    while i < terms.len()
        invariant
            i <= terms.len(),
            sources == crate::repr::terms_view(terms@),
            canonical_choices(computation@, fixed_indices@, sources.take(i as int), cs),
            crate::repr::terms_view(merged@) == merge(cs),
            forall|k: int| 0 <= k < i ==> term_context_valid(computation@, fixed_indices@, #[trigger] terms@[k]@),
            forall|k: int|
                0 <= k < merged.len() ==> arranges_some(computation@, fixed_indices@, sources, #[trigger] merged@[k]@),
            forall|a: int, b: int|
                0 <= a < merged.len() && 0 <= b < merged.len() && a != b ==> !((#[trigger] merged@[a])@.sums
                    == (#[trigger] merged@[b])@.sums && merged@[a]@.factors == merged@[b]@.factors),
        decreases terms.len() - i,
    {
        let term = &terms[i];
        assert(sources[i as int] == term@);
        proof {
            assert(sources.take(i + 1) =~= sources.take(i as int).push(sources[i as int]));
        }
        match canon_term(computation, fixed_indices, term) {
            Err(e) => {
                assert(e is ExhaustedIndexIds ==> ids_short(fixed_indices@, terms@[i as int]@.sums.len() as int));
                return Err(e);
            },
            Ok(None) => {
                proof {
                    let next = cs.push(None::<TermView>);
                    assert(next.drop_last() =~= cs);
                    assert(canonical_choice(computation@, fixed_indices@, sources[i as int], next[i as int]));
                    assert forall|j: int| 0 <= j < next.len() implies canonical_choice(
                        computation@,
                        fixed_indices@,
                        sources.take(i + 1)[j],
                        #[trigger] next[j],
                    ) by {
                        if j < i {
                            assert(next[j] == cs[j]);
                            assert(sources.take(i + 1)[j] == sources.take(i as int)[j]);
                        }
                    }
                    cs = next;
                }
            },
            Ok(Some(canonical)) => {
                let ghost prev = cs;
                let ghost next = cs.push(Some(canonical@));
                proof {
                    assert(next.drop_last() =~= prev);
                    assert(next.last() == Some(canonical@));
                    assert(canonical_choice(computation@, fixed_indices@, sources[i as int], next[i as int]));
                    assert forall|j: int| 0 <= j < next.len() implies canonical_choice(
                        computation@,
                        fixed_indices@,
                        sources.take(i + 1)[j],
                        #[trigger] next[j],
                    ) by {
                        if j < i {
                            assert(next[j] == prev[j]);
                            assert(sources.take(i + 1)[j] == sources.take(i as int)[j]);
                        }
                    }
                    cs = next;
                }
                let mut found: Option<usize> = None;
                let mut k: usize = 0;
                while k < merged.len()
                    invariant
                        k <= merged.len(),
                        found matches Some(p) ==> p < merged.len() && merged@[p as int]@.sums == canonical@.sums && merged@[p as int]@.factors == canonical@.factors,
                        found is None ==> forall|j: int| 0 <= j < k ==> !((#[trigger] merged@[j])@.sums == canonical@.sums && merged@[j]@.factors == canonical@.factors),
                    decreases merged.len() - k,
                {
                    if found.is_none() && same_body(&merged[k], &canonical) {
                        found = Some(k);
                    }
                    k = k + 1;
                }
                match found {
                    Some(p) => {
                        let existing = &merged[p];
                        let updated = Term {
                            sums: existing.sums.clone(),
                            coeff: existing.coeff.add(&canonical.coeff),
                            factors: existing.factors.clone(),
                        };
                        assert(updated.sums@ =~= existing.sums@);
                        assert(crate::repr::factors_view(updated.factors@) =~= crate::repr::factors_view(existing.factors@));
                        let ghost before = merged@;
                        merged.set(p, updated);
                        proof {
                            let pv = crate::repr::terms_view(before);
                            assert(pv == merge(prev));
                            assert(same_body_view(pv[p as int], canonical@));
                            let q = choose|q: int| 0 <= q < pv.len() && same_body_view(#[trigger] pv[q], canonical@);
                            assert(q == p);
                            assert(crate::repr::terms_view(merged@) =~= pv.update(
                                p as int,
                                TermView {
                                    sums: pv[p as int].sums,
                                    coeff: crate::coeff::ratio_sum(pv[p as int].coeff, canonical@.coeff),
                                    factors: pv[p as int].factors,
                                },
                            ));
                            assert(crate::repr::terms_view(merged@) == merge(cs));
                            assert forall|q: int| 0 <= q < merged.len() implies arranges_some(computation@, fixed_indices@, sources, #[trigger] merged@[q]@) by {
                                if q != p {
                                    assert(merged@[q] == before[q]);
                                } else {
                                    assert(arranges_some(computation@, fixed_indices@, sources, before[q]@));
                                    let j = choose|j: int| 0 <= j < sources.len() && #[trigger] arranges_term(computation@, fixed_indices@, sources[j], before[q]@);
                                    assert(arranges_term(computation@, fixed_indices@, sources[j], before[q]@));
                                    assert(merged@[q]@.sums == before[q]@.sums);
                                    assert(merged@[q]@.factors == before[q]@.factors);
                                    assert(arranges_term(computation@, fixed_indices@, sources[j], merged@[q]@));
                                }
                            }
                            assert forall|a: int, b: int|
                                0 <= a < merged.len() && 0 <= b < merged.len() && a != b implies !((#[trigger] merged@[a])@.sums
                                    == (#[trigger] merged@[b])@.sums && merged@[a]@.factors == merged@[b]@.factors) by {
                                assert(merged@[a]@.sums == before[a]@.sums && merged@[a]@.factors == before[a]@.factors);
                                assert(merged@[b]@.sums == before[b]@.sums && merged@[b]@.factors == before[b]@.factors);
                            }
                        }
                    },
                    None => {
                        let ghost before = merged@;
                        merged.push(canonical);
                        proof {
                            let pv = crate::repr::terms_view(before);
                            assert(pv == merge(prev));
                            assert forall|q: int| 0 <= q < pv.len() implies !same_body_view(#[trigger] pv[q], canonical@) by {
                                assert(pv[q] == before[q]@);
                            }
                            assert(crate::repr::terms_view(merged@) =~= pv.push(canonical@));
                            assert(crate::repr::terms_view(merged@) == merge(cs));
                            assert(arranges_term(computation@, fixed_indices@, sources[i as int], merged@[merged.len() - 1]@));
                            assert forall|q: int| 0 <= q < merged.len() implies arranges_some(computation@, fixed_indices@, sources, #[trigger] merged@[q]@) by {
                                if q < before.len() {
                                    assert(merged@[q] == before[q]);
                                }
                            }
                        }
                    },
                }
            },
        }
        i = i + 1;
    }
    assert(sources.take(terms.len() as int) =~= sources);
    let ghost mv = crate::repr::terms_view(merged@);
    let mut nonzero: Vec<Term> = Vec::new();
    let mut k: usize = 0;
    let ghost mut picked: Seq<int> = Seq::empty();
    while k < merged.len()
        invariant
            k <= merged.len(),
            mv == crate::repr::terms_view(merged@),
            crate::repr::terms_view(nonzero@) == drop_zeros(mv.take(k as int)),
            picked.len() == nonzero.len(),
            forall|q: int| 0 <= q < nonzero.len() ==> 0 <= #[trigger] picked[q] < k && nonzero@[q]@ == merged@[picked[q]]@,
            forall|a: int, b: int| 0 <= a < b < nonzero.len() ==> picked[a] < picked[b],
            forall|q: int| 0 <= q < nonzero.len() ==> !is_zero_value((#[trigger] nonzero@[q])@.coeff),
        decreases merged.len() - k,
    {
        proof {
            assert(mv.take(k + 1).drop_last() =~= mv.take(k as int));
            assert(mv.take(k + 1).last() == merged@[k as int]@);
        }
        let ghost before = nonzero@;
        if !merged[k].coeff.is_zero() {
            nonzero.push(merged[k].clone());
            proof {
                picked = picked.push(k as int);
                assert(crate::repr::terms_view(nonzero@) =~= crate::repr::terms_view(before).push(merged@[k as int]@));
            }
        }
        k = k + 1;
    }
    assert(mv.take(merged.len() as int) =~= mv);
    let order = sort_term_positions(&nonzero);
    let mut result: Vec<Term> = Vec::new();
    let mut q: usize = 0;
    while q < order.len()
        invariant
            q <= order.len() == nonzero.len(),
            result@.len() == q,
            perm_valid(order@, nonzero.len() as nat),
            forall|x: int| 0 <= x < q ==> (#[trigger] result@[x])@ == nonzero@[order@[x] as int]@,
        decreases order.len() - q,
    {
        result.push(nonzero[order[q]].clone());
        q = q + 1;
    }
    proof {
        let rv = crate::repr::terms_view(result@);
        assert forall|x: int| 0 <= x < rv.len() implies !is_zero_value((#[trigger] rv[x]).coeff) by {
            assert(rv[x] == nonzero@[order@[x] as int]@);
        }
        assert forall|x: int| 0 <= x < rv.len() implies arranges_some(computation@, fixed_indices@, sources, #[trigger] rv[x]) by {
            let y = order@[x] as int;
            assert(rv[x] == nonzero@[y]@);
            assert(nonzero@[y]@ == merged@[picked[y]]@);
            assert(arranges_some(computation@, fixed_indices@, sources, merged@[picked[y]]@));
        }
        assert forall|a: int, b: int| 0 <= a < rv.len() && 0 <= b < rv.len() && a != b implies !((#[trigger] rv[a]).sums
            == (#[trigger] rv[b]).sums && rv[a].factors == rv[b].factors) by {
            let ya = order@[a] as int;
            let yb = order@[b] as int;
            assert(ya != yb);
            assert(rv[a] == merged@[picked[ya]]@);
            assert(rv[b] == merged@[picked[yb]]@);
            if ya < yb {
                assert(picked[ya] < picked[yb]);
            } else {
                assert(picked[yb] < picked[ya]);
            }
        }
        assert(canonical_terms(computation@, fixed_indices@, sources, rv));
        let nv = crate::repr::terms_view(nonzero@);
        assert forall|x: int| 0 <= x < rv.len() implies rv[x] == nv[order@[x] as int] by {}
        assert(is_reordering(rv, nv));
        assert(canonical_choices(computation@, fixed_indices@, sources, cs));
        assert forall|a: int, b: int| 0 <= a < b < result.len() implies sums_and_factors_order(
            #[trigger] result@[a]@,
            #[trigger] result@[b]@,
        ) <= 0 by {
            assert(result@[a]@ == nonzero@[order@[a] as int]@);
            assert(result@[b]@ == nonzero@[order@[b] as int]@);
        }
    }
    Ok(result)
}


/// An arrangement of a valid term is valid in the same scope.
pub proof fn lemma_arrangement_valid(c: ComputationView, fixed: Seq<Index>, source: TermView, t: TermView)
    requires
        arranges_term(c, fixed, source, t),
        crate::valid::term_valid(c, fixed, source),
    ensures
        crate::valid::term_valid(c, fixed, t),
{
    assert forall|k: int| 0 <= k < t.sums.len() implies c.ranges.contains((#[trigger] t.sums[k]).range) by {
        assert(has_range(source.sums, t.sums[k].range));
        let j = choose|j: int| 0 <= j < source.sums.len() && (#[trigger] source.sums[j]).range == t.sums[k].range;
        assert(c.ranges.contains(source.sums[j].range));
    }
}

} // verus!
