//! Validated symbolic rewrite state with canonical definition terms.

use crate::canon::{check_context, contains_id, find_tensor, is_permutation, CanonError};
use crate::repr::{
    definitions_view, factors_view, terms_view, Computation, ComputationView, IndexId, RangeId,
    TensorDef, TensorDefView, TensorId, Term, TermView,
};
use crate::valid::{
    body_valid,
    computation_valid, definition_valid, distinct_ids, has_id, info_valid, lookup_tensor,
    outputs_valid, term_context_valid, term_uses, term_valid,
};
use vstd::prelude::*;

pub mod canonicalize;
pub mod intermediate;

use self::canonicalize::{
    canonical_definition_of, canonical_form, canonicalize_definition, canonicalize_definitions,
    definition_canonical, lemma_canonical_form_valid, lemma_canonical_shape,
};

verus! {

/// A validation or canonicalization failure while constructing or rewriting
/// a [`State`].
#[derive(Clone, Debug, PartialEq, Eq)]
pub enum StateError {
    UnknownRange { range: RangeId },
    UnknownTensor { tensor: TensorId },
    DuplicateDefinition { tensor: TensorId },
    DuplicateProtectedOutput { tensor: TensorId },
    MissingProtectedOutputDefinition { tensor: TensorId },
    TensorArityMismatch { tensor: TensorId, expected: usize, got: usize },
    InvalidSymmetryArity { tensor: TensorId, expected: usize, got: usize },
    InvalidSymmetryPermutation { tensor: TensorId, perm: Vec<usize> },
    DuplicateExternalIndex { definition: TensorId, index: IndexId },
    DuplicateSumIndex { definition: TensorId, term: usize, index: IndexId },
    ExternalAndSumIndexOverlap { definition: TensorId, term: usize, index: IndexId },
    UnknownFactorIndex { definition: TensorId, term: usize, index: IndexId },
    UnusedSumIndex { definition: TensorId, term: usize, index: IndexId },
    DependencyCycle { tensor: TensorId },
    DefinitionOutOfBounds { position: usize },
    TermOutOfBounds { definition: usize, term: usize },
    ZeroIntermediate,
    ExhaustedTensorIds,
    Canonicalization(CanonError),
}

/// Whether `error` reports a structural defect of the input: an unknown or
/// duplicated item, a wrong arity, an invalid symmetry, or a misused index.
pub open spec fn is_validation_error(error: StateError) -> bool {
    ||| error is UnknownRange
    ||| error is UnknownTensor
    ||| error is DuplicateDefinition
    ||| error is DuplicateProtectedOutput
    ||| error is MissingProtectedOutputDefinition
    ||| error is TensorArityMismatch
    ||| error is InvalidSymmetryArity
    ||| error is InvalidSymmetryPermutation
    ||| error is DuplicateExternalIndex
    ||| error is DuplicateSumIndex
    ||| error is ExternalAndSumIndexOverlap
    ||| error is UnknownFactorIndex
    ||| error is UnusedSumIndex
}

/// What a validation error reports of term `position` of definition `d`.
pub open spec fn term_error(c: ComputationView, d: TensorDefView, position: int, e: StateError) -> bool {
    let t = d.rhs[position];
    match e {
        StateError::UnknownRange { range } => !c.ranges.contains(range) && exists|k: int|
            0 <= k < t.sums.len() && (#[trigger] t.sums[k]).range == range,
        StateError::ExternalAndSumIndexOverlap { definition, term, index } => definition == d.base && term == position
            && has_id(d.exts, index) && has_id(t.sums, index),
        StateError::DuplicateSumIndex { definition, term, index } => definition == d.base && term == position
            && exists|a: int, b: int| 0 <= a < b < t.sums.len() && t.sums[a].id == index && t.sums[b].id == index,
        StateError::UnknownTensor { tensor } => lookup_tensor(c.tensors, tensor) is None && exists|f: int|
            0 <= f < t.factors.len() && (#[trigger] t.factors[f]).tensor == tensor,
        StateError::TensorArityMismatch { tensor, expected, got } => exists|f: int|
            0 <= f < t.factors.len() && (#[trigger] t.factors[f]).tensor == tensor && lookup_tensor(c.tensors, tensor) is Some
                && lookup_tensor(c.tensors, tensor).unwrap().rank == expected && got == t.factors[f].indices.len()
                && expected != got,
        StateError::UnknownFactorIndex { definition, term, index } => definition == d.base && term == position
            && !has_id(d.exts, index) && !has_id(t.sums, index) && exists|f: int|
            0 <= f < t.factors.len() && (#[trigger] t.factors[f]).indices.contains(index),
        StateError::UnusedSumIndex { definition, term, index } => definition == d.base && term == position
            && has_id(t.sums, index) && !term_uses(t, index),
        _ => false,
    }
}

/// What a validation error reports of definition `d`: an external of an
/// undeclared range, a repeated external, or a defect of a term.
pub open spec fn definition_error(c: ComputationView, d: TensorDefView, e: StateError) -> bool {
    ||| e matches StateError::UnknownRange { range } && !c.ranges.contains(range) && exists|k: int|
        0 <= k < d.exts.len() && (#[trigger] d.exts[k]).range == range
    ||| e matches StateError::DuplicateExternalIndex { definition, index } && definition == d.base && exists|a: int, b: int|
        0 <= a < b < d.exts.len() && d.exts[a].id == index && d.exts[b].id == index
    ||| exists|t: int| 0 <= t < d.rhs.len() && #[trigger] term_error(c, d, t, e)
}

/// What a validation error reports of a computation: an invalid symmetry
/// in the tensor table, an undeclared or twice-defined base, a base of
/// another rank, or a defect of a definition.
pub open spec fn computation_error(c: ComputationView, e: StateError) -> bool {
    ||| exists|k: int, g: int|
        #![trigger c.tensors[k].1.symmetry[g]]
        0 <= k < c.tensors.len() && 0 <= g < c.tensors[k].1.symmetry.len() && match e {
            StateError::InvalidSymmetryArity { tensor, expected, got } => tensor == c.tensors[k].0 && expected
                == c.tensors[k].1.rank && got == c.tensors[k].1.symmetry[g].perm.len() && expected != got,
            StateError::InvalidSymmetryPermutation { tensor, perm } => tensor == c.tensors[k].0 && perm@
                == c.tensors[k].1.symmetry[g].perm && !crate::valid::generator_valid(
                c.tensors[k].1.symmetry[g],
                c.tensors[k].1.rank as nat,
            ),
            _ => false,
        }
    ||| exists|p: int|
        0 <= p < c.definitions.len() && match e {
            StateError::UnknownTensor { tensor } => tensor == (#[trigger] c.definitions[p]).base && lookup_tensor(
                c.tensors,
                tensor,
            ) is None,
            StateError::DuplicateDefinition { tensor } => tensor == c.definitions[p].base && exists|q: int|
                0 <= q < c.definitions.len() && q != p && c.definitions[q].base == tensor,
            StateError::TensorArityMismatch { tensor, expected, got } => tensor == c.definitions[p].base
                && lookup_tensor(c.tensors, tensor) is Some && lookup_tensor(c.tensors, tensor).unwrap().rank == expected
                && got == c.definitions[p].exts.len() && expected != got,
            _ => false,
        }
    ||| exists|p: int| 0 <= p < c.definitions.len() && #[trigger] definition_error(c, c.definitions[p], e)
}

/// The fault of the protected output at position `k`: an undeclared tensor,
/// then one already listed earlier, then one without a definition.
pub open spec fn output_fault(c: ComputationView, outputs: Seq<TensorId>, k: int) -> Option<StateError> {
    let tensor = outputs[k];
    if lookup_tensor(c.tensors, tensor) is None {
        Some(StateError::UnknownTensor { tensor })
    } else if exists|a: int| 0 <= a < k && outputs[a] == tensor {
        Some(StateError::DuplicateProtectedOutput { tensor })
    } else if !crate::valid::defines(c, tensor) {
        Some(StateError::MissingProtectedOutputDefinition { tensor })
    } else {
        None
    }
}

/// What a validation error reports of the protected outputs: the fault of
/// the first output that has one.
pub open spec fn outputs_error(c: ComputationView, outputs: Seq<TensorId>, e: StateError) -> bool {
    exists|k: int|
        0 <= k < outputs.len() && #[trigger] output_fault(c, outputs, k) == Some(e) && forall|j: int|
            0 <= j < k ==> output_fault(c, outputs, j) is None
}

/// An entry found by `lookup_tensor` is an entry of the table.
pub proof fn lemma_lookup_is_entry(tensors: Seq<(TensorId, crate::repr::TensorInfoView)>, tensor: TensorId)
    requires
        lookup_tensor(tensors, tensor) is Some,
    ensures
        exists|k: int| 0 <= k < tensors.len() && (#[trigger] tensors[k]).1 == lookup_tensor(tensors, tensor).unwrap(),
    decreases tensors.len(),
{
    if tensors[0].0 != tensor {
        lemma_lookup_is_entry(tensors.drop_first(), tensor);
        let k = choose|k: int| 0 <= k < tensors.drop_first().len() && (#[trigger] tensors.drop_first()[k]).1 == lookup_tensor(tensors.drop_first(), tensor).unwrap();
        assert(tensors[k + 1] == tensors.drop_first()[k]);
    } else {
        assert(tensors[0].1 == lookup_tensor(tensors, tensor).unwrap());
    }
}

/// Every tensor in a table whose entries are all valid has valid metadata.
proof fn lemma_lookup_valid(c: ComputationView, tensor: TensorId)
    requires
        forall|k: int| 0 <= k < c.tensors.len() ==> info_valid((#[trigger] c.tensors[k]).1),
        lookup_tensor(c.tensors, tensor) is Some,
    ensures
        info_valid(lookup_tensor(c.tensors, tensor).unwrap()),
{
    lemma_lookup_is_entry(c.tensors, tensor);
}

fn contains_range(ranges: &Vec<RangeId>, range: RangeId) -> (r: bool)
    ensures
        r == ranges@.contains(range),
{
    let mut k: usize = 0;
    while k < ranges.len()
        invariant
            k <= ranges.len(),
            forall|j: int| 0 <= j < k ==> ranges@[j] != range,
        decreases ranges.len() - k,
    {
        if ranges[k] == range {
            assert(ranges@[k as int] == range);
            return true;
        }
        k = k + 1;
    }
    false
}

/// Every symmetry generator in the tensor table is a permutation of its
/// tensor's slots.
fn validate_tensor_symmetries(computation: &Computation) -> (r: Result<(), StateError>)
    ensures
        r is Ok <==> forall|k: int|
            0 <= k < computation@.tensors.len() ==> info_valid((#[trigger] computation@.tensors[k]).1),
        r matches Err(e) ==> is_validation_error(e),
        r matches Err(e) ==> computation_error(computation@, e),
{
    let mut k: usize = 0;
    while k < computation.tensors.len()
        invariant
            k <= computation.tensors.len(),
            forall|j: int| 0 <= j < k ==> info_valid((#[trigger] computation@.tensors[j]).1),
        decreases computation.tensors.len() - k,
    {
        let tensor = computation.tensors[k].0;
        let info = &computation.tensors[k].1;
        assert(computation@.tensors[k as int] == (tensor, info@));
        let mut g: usize = 0;
        while g < info.symmetry.len()
            invariant
                k < computation.tensors.len(),
                computation@.tensors[k as int] == (tensor, info@),
                g <= info.symmetry.len(),
                forall|x: int| 0 <= x < g ==> crate::valid::generator_valid(#[trigger] info@.symmetry[x], info.rank as nat),
            decreases info.symmetry.len() - g,
        {
            let generator = &info.symmetry[g];
            assert(info@.symmetry[g as int] == generator@);
            if generator.perm.len() != info.rank {
                assert(computation@.tensors[k as int].1.symmetry[g as int].perm.len() == generator.perm.len());
                return Err(
                    StateError::InvalidSymmetryArity {
                        tensor,
                        expected: info.rank,
                        got: generator.perm.len(),
                    },
                );
            }
            if !is_permutation(&generator.perm, info.rank) {
                assert(!crate::valid::generator_valid(computation@.tensors[k as int].1.symmetry[g as int], info.rank as nat));
                return Err(
                    StateError::InvalidSymmetryPermutation { tensor, perm: generator.perm.clone() },
                );
            }
            g = g + 1;
        }
        k = k + 1;
    }
    Ok(())
}

/// The first earlier definition position whose base is `base`.
fn earlier_definition(definitions: &Vec<TensorDef>, end: usize, base: TensorId) -> (r: bool)
    requires
        end <= definitions.len(),
    ensures
        r == exists|p: int| 0 <= p < end && (#[trigger] definitions@[p]).base == base,
{
    let mut p: usize = 0;
    while p < end
        invariant
            p <= end <= definitions.len(),
            forall|q: int| 0 <= q < p ==> (#[trigger] definitions@[q]).base != base,
        decreases end - p,
    {
        if definitions[p].base == base {
            return true;
        }
        p = p + 1;
    }
    false
}

/// Validate one term of a definition whose externals are already valid.
#[verifier::loop_isolation(false)]
fn validate_term(computation: &Computation, definition: &TensorDef, position: usize) -> (r: Result<
    (),
    StateError,
>)
    requires
        position < definition.rhs.len(),
        distinct_ids(definition.exts@),
        forall|k: int| 0 <= k < computation@.tensors.len() ==> info_valid((#[trigger] computation@.tensors[k]).1),
    ensures
        r is Ok <==> term_valid(computation@, definition.exts@, definition.rhs@[position as int]@),
        r matches Err(e) ==> is_validation_error(e),
        r matches Err(e) ==> term_error(computation@, definition@, position as int, e),
{
    assert(definition@.rhs[position as int] == definition.rhs@[position as int]@);
    let term = &definition.rhs[position];
    let exts = definition.exts.as_slice();
    let mut s: usize = 0;
    while s < term.sums.len()
        invariant
            s <= term.sums.len(),
            forall|k: int| 0 <= k < s ==> computation@.ranges.contains((#[trigger] term.sums@[k]).range),
            forall|k: int| 0 <= k < s ==> !has_id(exts@, (#[trigger] term.sums@[k]).id),
            forall|a: int, b: int| 0 <= a < s && 0 <= b < s && a != b ==> (#[trigger] term.sums@[a]).id != (#[trigger] term.sums@[b]).id,
        decreases term.sums.len() - s,
    {
        let sum = term.sums[s];
        if !contains_range(&computation.ranges, sum.range) {
            return Err(StateError::UnknownRange { range: sum.range });
        }
        if contains_id(exts, sum.id) {
            return Err(
                StateError::ExternalAndSumIndexOverlap {
                    definition: definition.base,
                    term: position,
                    index: sum.id,
                },
            );
        }
        let mut a: usize = 0;
        while a < s
            invariant
                a <= s < term.sums.len(),
                forall|x: int| 0 <= x < a ==> (#[trigger] term.sums@[x]).id != sum.id,
            decreases s - a,
        {
            if term.sums[a].id == sum.id {
                return Err(
                    StateError::DuplicateSumIndex {
                        definition: definition.base,
                        term: position,
                        index: sum.id,
                    },
                );
            }
            a = a + 1;
        }
        s = s + 1;
    }
    let mut used: Vec<bool> = Vec::new();
    let mut u: usize = 0;
    while u < term.sums.len()
        invariant
            u <= term.sums.len(),
            used@.len() == u,
            forall|x: int| 0 <= x < u ==> !(#[trigger] used@[x]),
        decreases term.sums.len() - u,
    {
        used.push(false);
        u = u + 1;
    }
    let mut f: usize = 0;
    while f < term.factors.len()
        invariant
            f <= term.factors.len(),
            used@.len() == term.sums.len(),
            forall|x: int| 0 <= x < f ==> crate::valid::factor_valid(computation@, exts@, term.sums@, #[trigger] factors_view(term.factors@)[x]),
            forall|x: int| 0 <= x < term.sums.len() ==> (#[trigger] used@[x] ==> term_uses(term@, term.sums@[x].id)),
            forall|x: int, g: int, k: int|
                0 <= x < term.sums.len() && 0 <= g < f && 0 <= k < term.factors@[g].indices.len() && #[trigger] term.factors@[g].indices@[k] == term.sums@[x].id
                    ==> #[trigger] used@[x],
        decreases term.factors.len() - f,
    {
        let factor = &term.factors[f];
        assert(factors_view(term.factors@)[f as int] == factor@);
        assert(term@.factors[f as int] == factor@);
        let found = match find_tensor(&computation.tensors, factor.tensor) {
            Some(found) => found,
            None => {
                return Err(StateError::UnknownTensor { tensor: factor.tensor });
            },
        };
        let rank = computation.tensors[found].1.rank;
        assert(computation@.tensors[found as int].1.rank == rank);
        if factor.indices.len() != rank {
            return Err(
                StateError::TensorArityMismatch {
                    tensor: factor.tensor,
                    expected: rank,
                    got: factor.indices.len(),
                },
            );
        }
        proof {
            lemma_lookup_valid(computation@, factor.tensor);
        }
        let mut k: usize = 0;
        while k < factor.indices.len()
            invariant
                f < term.factors.len(),
                k <= factor.indices.len(),
                used@.len() == term.sums.len(),
                forall|x: int| 0 <= x < k ==> has_id(exts@, #[trigger] factor.indices@[x]) || has_id(term.sums@, factor.indices@[x]),
                forall|x: int| 0 <= x < term.sums.len() ==> (#[trigger] used@[x] ==> term_uses(term@, term.sums@[x].id)),
                forall|x: int, g: int, j: int|
                    0 <= x < term.sums.len() && 0 <= g < f && 0 <= j < term.factors@[g].indices.len() && #[trigger] term.factors@[g].indices@[j] == term.sums@[x].id
                        ==> #[trigger] used@[x],
                forall|x: int, j: int|
                    0 <= x < term.sums.len() && 0 <= j < k && #[trigger] factor.indices@[j] == term.sums@[x].id
                        ==> #[trigger] used@[x],
            decreases factor.indices.len() - k,
        {
            let index = factor.indices[k];
            let mut x: usize = 0;
            let mut is_sum = false;
            while x < term.sums.len()
                invariant
                    x <= term.sums.len(),
                    used@.len() == term.sums.len(),
                    is_sum ==> has_id(term.sums@, index),
                    !is_sum ==> forall|y: int| 0 <= y < x ==> (#[trigger] term.sums@[y]).id != index,
                    forall|y: int| 0 <= y < x && (#[trigger] term.sums@[y]).id == index ==> used@[y],
                    forall|y: int| 0 <= y < term.sums.len() ==> (#[trigger] used@[y] ==> term_uses(term@, term.sums@[y].id)),
                    forall|y: int, g: int, j: int|
                        0 <= y < term.sums.len() && 0 <= g < f && 0 <= j < term.factors@[g].indices.len() && #[trigger] term.factors@[g].indices@[j] == term.sums@[y].id
                            ==> #[trigger] used@[y],
                    forall|y: int, j: int|
                        0 <= y < term.sums.len() && 0 <= j < k && #[trigger] factor.indices@[j] == term.sums@[y].id
                            ==> #[trigger] used@[y],
                decreases term.sums.len() - x,
            {
                if term.sums[x].id == index {
                    assert(term@.factors[f as int].indices[k as int] == index);
                    used.set(x, true);
                    is_sum = true;
                }
                x = x + 1;
            }
            if !is_sum && !contains_id(exts, index) {
                return Err(
                    StateError::UnknownFactorIndex {
                        definition: definition.base,
                        term: position,
                        index,
                    },
                );
            }
            k = k + 1;
        }
        f = f + 1;
    }
    let mut x: usize = 0;
    while x < term.sums.len()
        invariant
            x <= term.sums.len(),
            used@.len() == term.sums.len(),
            forall|y: int| 0 <= y < x ==> #[trigger] used@[y],
        decreases term.sums.len() - x,
    {
        if !used[x] {
            proof {
                if term_uses(term@, term.sums@[x as int].id) {
                    let (g, j) = choose|g: int, j: int| 0 <= g < term@.factors.len() && 0 <= j < term@.factors[g].indices.len() && #[trigger] term@.factors[g].indices[j] == term.sums@[x as int].id;
                    assert(term@.factors[g] == term.factors@[g]@);
                    assert(term.factors@[g].indices@[j] == term.sums@[x as int].id);
                }
            }
            return Err(
                StateError::UnusedSumIndex {
                    definition: definition.base,
                    term: position,
                    index: term.sums[x].id,
                },
            );
        }
        x = x + 1;
    }
    assert(term@.factors == factors_view(term.factors@));
    assert(term_context_valid(computation@, exts@, term@));
    assert forall|k: int| 0 <= k < term@.sums.len() implies term_uses(term@, (#[trigger] term@.sums[k]).id) by {
        assert(used@[k]);
    }
    Ok(())
}


/// Validate the externals and terms of a definition.
fn validate_definition(computation: &Computation, definition: &TensorDef) -> (r: Result<
    (),
    StateError,
>)
    requires
        forall|k: int| 0 <= k < computation@.tensors.len() ==> info_valid((#[trigger] computation@.tensors[k]).1),
    ensures
        r is Ok <==> {
            &&& distinct_ids(definition.exts@)
            &&& forall|k: int| 0 <= k < definition.exts.len() ==> computation@.ranges.contains((#[trigger] definition.exts@[k]).range)
            &&& forall|t: int| 0 <= t < definition.rhs.len() ==> term_valid(computation@, definition.exts@, #[trigger] definition@.rhs[t])
        },
        r matches Err(e) ==> is_validation_error(e),
        r matches Err(e) ==> definition_error(computation@, definition@, e),
{
    let mut e: usize = 0;
    while e < definition.exts.len()
        invariant
            e <= definition.exts.len(),
            forall|k: int| 0 <= k < e ==> computation@.ranges.contains((#[trigger] definition.exts@[k]).range),
            forall|a: int, b: int| 0 <= a < e && 0 <= b < e && a != b ==> (#[trigger] definition.exts@[a]).id != (#[trigger] definition.exts@[b]).id,
        decreases definition.exts.len() - e,
    {
        let external = definition.exts[e];
        if !contains_range(&computation.ranges, external.range) {
            assert(definition@.exts == definition.exts@);
            assert(definition@.exts[e as int].range == external.range);
            return Err(StateError::UnknownRange { range: external.range });
        }
        let mut a: usize = 0;
        while a < e
            invariant
                a <= e < definition.exts.len(),
                external == definition.exts@[e as int],
                forall|x: int| 0 <= x < a ==> (#[trigger] definition.exts@[x]).id != external.id,
            decreases e - a,
        {
            if definition.exts[a].id == external.id {
                assert(definition.exts@[a as int].id == definition.exts@[e as int].id);
                assert(definition@.exts == definition.exts@);
                assert(definition@.exts[a as int].id == external.id && definition@.exts[e as int].id == external.id);
                return Err(
                    StateError::DuplicateExternalIndex {
                        definition: definition.base,
                        index: external.id,
                    },
                );
            }
            a = a + 1;
        }
        e = e + 1;
    }
    let mut t: usize = 0;
    while t < definition.rhs.len()
        invariant
            t <= definition.rhs.len(),
            distinct_ids(definition.exts@),
            forall|k: int| 0 <= k < computation@.tensors.len() ==> info_valid((#[trigger] computation@.tensors[k]).1),
            forall|x: int| 0 <= x < t ==> term_valid(computation@, definition.exts@, #[trigger] definition@.rhs[x]),
        decreases definition.rhs.len() - t,
    {
        assert(definition@.rhs[t as int] == definition.rhs@[t as int]@);
        match validate_term(computation, definition, t) {
            Ok(()) => {},
            Err(e) => {
                assert(term_error(computation@, definition@, t as int, e));
                return Err(e);
            },
        }
        t = t + 1;
    }
    Ok(())
}

/// Validate the tensor table and every definition.
fn validate_computation(computation: &Computation) -> (r: Result<(), StateError>)
    ensures
        r is Ok <==> computation_valid(computation@),
        r matches Err(e) ==> is_validation_error(e),
        r matches Err(e) ==> computation_error(computation@, e),
{
    validate_tensor_symmetries(computation)?;
    let mut p: usize = 0;
    while p < computation.definitions.len()
        invariant
            p <= computation.definitions.len(),
            forall|k: int| 0 <= k < computation@.tensors.len() ==> info_valid((#[trigger] computation@.tensors[k]).1),
            forall|x: int| 0 <= x < p ==> definition_valid(computation@, #[trigger] computation@.definitions[x]),
            forall|a: int, b: int| 0 <= a < p && 0 <= b < p && a != b ==> (#[trigger] computation@.definitions[a]).base != (#[trigger] computation@.definitions[b]).base,
        decreases computation.definitions.len() - p,
    {
        let definition = &computation.definitions[p];
        assert(computation@.definitions[p as int] == definition@);
        let found = match find_tensor(&computation.tensors, definition.base) {
            Some(found) => found,
            None => {
                assert(computation@.definitions[p as int].base == definition.base);
                return Err(StateError::UnknownTensor { tensor: definition.base });
            },
        };
        if earlier_definition(&computation.definitions, p, definition.base) {
            proof {
                let q = choose|q: int| 0 <= q < p && (#[trigger] computation.definitions@[q]).base == definition.base;
                assert(computation@.definitions[q] == computation.definitions@[q]@);
                assert(computation@.definitions[q].base == definition.base);
            }
            return Err(StateError::DuplicateDefinition { tensor: definition.base });
        }
        let rank = computation.tensors[found].1.rank;
        assert(computation@.tensors[found as int].1.rank == rank);
        if definition.exts.len() != rank {
            return Err(
                StateError::TensorArityMismatch {
                    tensor: definition.base,
                    expected: rank,
                    got: definition.exts.len(),
                },
            );
        }
        match validate_definition(computation, definition) {
            Ok(()) => {},
            Err(e) => {
                assert(definition_error(computation@, computation@.definitions[p as int], e));
                return Err(e);
            },
        }
        proof {
            assert forall|a: int, b: int| 0 <= a < p + 1 && 0 <= b < p + 1 && a != b implies (#[trigger] computation@.definitions[a]).base != (#[trigger] computation@.definitions[b]).base by {
                if a == p as int {
                    assert(computation@.definitions[b] == computation.definitions@[b]@);
                } else if b == p as int {
                    assert(computation@.definitions[a] == computation.definitions@[a]@);
                }
            }
        }
        p = p + 1;
    }
    Ok(())
}

/// The position of the definition of `tensor`.
pub fn find_definition(computation: &Computation, tensor: TensorId) -> (r: Option<usize>)
    ensures
        r matches Some(p) ==> p < computation.definitions.len() && computation@.definitions[p as int].base == tensor,
        r is None ==> !crate::valid::defines(computation@, tensor),
{
    let mut p: usize = 0;
    while p < computation.definitions.len()
        invariant
            p <= computation.definitions.len(),
            forall|q: int| 0 <= q < p ==> (#[trigger] computation@.definitions[q]).base != tensor,
        decreases computation.definitions.len() - p,
    {
        assert(computation@.definitions[p as int] == computation.definitions@[p as int]@);
        if computation.definitions[p].base == tensor {
            return Some(p);
        }
        p = p + 1;
    }
    None
}

/// Validate the protected outputs.
fn validate_protected_outputs(computation: &Computation, outputs: &[TensorId]) -> (r: Result<
    (),
    StateError,
>)
    ensures
        r is Ok <==> outputs_valid(computation@, outputs@),
        r matches Err(e) ==> is_validation_error(e),
        r matches Err(e) ==> outputs_error(computation@, outputs@, e),
{
    let mut k: usize = 0;
    while k < outputs.len()
        invariant
            k <= outputs.len(),
            forall|a: int, b: int| 0 <= a < k && 0 <= b < k && a != b ==> outputs@[a] != outputs@[b],
            forall|x: int| 0 <= x < k ==> lookup_tensor(computation@.tensors, #[trigger] outputs@[x]) is Some && crate::valid::defines(computation@, outputs@[x]),
            forall|j: int| 0 <= j < k ==> #[trigger] output_fault(computation@, outputs@, j) is None,
        decreases outputs.len() - k,
    {
        let output = outputs[k];
        if find_tensor(&computation.tensors, output).is_none() {
            assert(outputs@[k as int] == output);
            assert(output_fault(computation@, outputs@, k as int) == Some(StateError::UnknownTensor { tensor: output }));
            return Err(StateError::UnknownTensor { tensor: output });
        }
        let mut a: usize = 0;
        while a < k
            invariant
                a <= k < outputs.len(),
                output == outputs@[k as int],
                forall|x: int| 0 <= x < a ==> outputs@[x] != output,
                lookup_tensor(computation@.tensors, output) is Some,
                forall|j: int| 0 <= j < k ==> #[trigger] output_fault(computation@, outputs@, j) is None,
            decreases k - a,
        {
            if outputs[a] == output {
                assert(outputs@[a as int] == outputs@[k as int]);
                assert(output_fault(computation@, outputs@, k as int) == Some(StateError::DuplicateProtectedOutput { tensor: output }));
                return Err(StateError::DuplicateProtectedOutput { tensor: output });
            }
            a = a + 1;
        }
        if find_definition(computation, output).is_none() {
            assert(outputs@[k as int] == output);
            assert(output_fault(computation@, outputs@, k as int) == Some(StateError::MissingProtectedOutputDefinition { tensor: output }));
            return Err(StateError::MissingProtectedOutputDefinition { tensor: output });
        }
        assert(output_fault(computation@, outputs@, k as int) is None);
        k = k + 1;
    }
    Ok(())
}


// ----------------------------------------------------------------------------
// Dependency cycles
// ----------------------------------------------------------------------------

/// Definition `p` has a factor naming the tensor that definition `q` defines.
pub open spec fn refers(c: ComputationView, p: int, q: int) -> bool {
    exists|t: int, f: int|
        0 <= t < c.definitions[p].rhs.len() && 0 <= f < c.definitions[p].rhs[t].factors.len()
            && #[trigger] c.definitions[p].rhs[t].factors[f].tensor == c.definitions[q].base
}

/// The state of a depth-first search: visits are 0 (new), 1 (on the stack)
/// or 2 (done); done definitions refer only to done definitions that were
/// finished earlier.
spec fn search_invariant(
    c: ComputationView,
    visits: Seq<u8>,
    finish: Seq<int>,
    next: int,
    stack: Seq<int>,
) -> bool {
    let n = c.definitions.len();
    &&& visits.len() == n
    &&& finish.len() == n
    &&& forall|x: int| 0 <= x < n ==> #[trigger] visits[x] <= 2
    &&& forall|i: int| 0 <= i < stack.len() ==> 0 <= #[trigger] stack[i] < n && visits[stack[i]] == 1
    &&& forall|x: int| 0 <= x < n && #[trigger] visits[x] == 1 ==> stack.contains(x)
    &&& forall|i: int| 0 <= i < stack.len() - 1 ==> refers(c, #[trigger] stack[i], stack[i + 1])
    &&& forall|x: int|
        0 <= x < n && #[trigger] visits[x] == 2 ==> finish[x] < next && forall|q: int|
            0 <= q < n && refers(c, x, q) ==> visits[q] == 2 && finish[q] < finish[x]
}

spec fn unvisited(visits: Seq<u8>) -> nat
    decreases visits.len(),
{
    if visits.len() == 0 {
        0
    } else {
        unvisited(visits.drop_last()) + if visits.last() == 0 {
            1nat
        } else {
            0nat
        }
    }
}

proof fn lemma_unvisited_fewer(a: Seq<u8>, b: Seq<u8>, p: int)
    requires
        a.len() == b.len(),
        forall|x: int| 0 <= x < b.len() && #[trigger] b[x] == 0 ==> a[x] == 0,
    ensures
        unvisited(b) <= unvisited(a),
        0 <= p < a.len() && a[p] == 0 && b[p] != 0 ==> unvisited(b) < unvisited(a),
    decreases a.len(),
{
    if a.len() > 0 {
        let n = a.len() - 1;
        assert forall|x: int| 0 <= x < b.drop_last().len() && #[trigger] b.drop_last()[x] == 0 implies a.drop_last()[x] == 0 by {
            assert(b.drop_last()[x] == b[x]);
        }
        lemma_unvisited_fewer(a.drop_last(), b.drop_last(), p);
        if 0 <= p < n {
            assert(a.drop_last()[p] == a[p]);
            assert(b.drop_last()[p] == b[p]);
        }
        if b.last() == 0 {
            assert(b[n] == 0);
        }
    }
}

/// The tensors defined along a sequence of definition positions.
spec fn bases_of(c: ComputationView, positions: Seq<int>) -> Seq<TensorId> {
    positions.map_values(|p: int| c.definitions[p].base)
}

proof fn lemma_refers_depends(c: ComputationView, p: int, q: int)
    requires
        0 <= p < c.definitions.len(),
        0 <= q < c.definitions.len(),
        refers(c, p, q),
    ensures
        crate::valid::depends_on(c, c.definitions[p].base, c.definitions[q].base),
{
    let (t, f) = choose|t: int, f: int|
        0 <= t < c.definitions[p].rhs.len() && 0 <= f < c.definitions[p].rhs[t].factors.len()
            && #[trigger] c.definitions[p].rhs[t].factors[f].tensor == c.definitions[q].base;
    assert(c.definitions[p].rhs[t].factors[f].tensor == c.definitions[q].base);
}

/// Depth-first search from definition `p`.
#[verifier::loop_isolation(false)]
#[verifier::rlimit(50)]
fn visit(
    computation: &Computation,
    p: usize,
    visits: &mut Vec<u8>,
    Ghost(stack): Ghost<Seq<int>>,
    Ghost(finish): Ghost<Seq<int>>,
    Ghost(next): Ghost<int>,
) -> (r: (Result<(), StateError>, Ghost<Seq<int>>, Ghost<int>))
    requires
        p < computation.definitions.len(),
        forall|a: int, b: int|
            0 <= a < computation@.definitions.len() && 0 <= b < computation@.definitions.len() && a != b
                ==> (#[trigger] computation@.definitions[a]).base != (#[trigger] computation@.definitions[b]).base,
        search_invariant(computation@, old(visits)@, finish, next, stack),
        stack.len() > 0 ==> refers(computation@, stack.last(), p as int),
    ensures
        r.0 is Ok ==> search_invariant(computation@, final(visits)@, r.1@, r.2@, stack)
            && final(visits)@[p as int] == 2,
        final(visits)@.len() == old(visits)@.len(),
        forall|x: int| 0 <= x < final(visits)@.len() && #[trigger] final(visits)@[x] == 0 ==> old(visits)@[x] == 0,
        r.0 matches Err(e) ==> e is DependencyCycle && !crate::valid::acyclic(computation@),
    decreases unvisited(old(visits)@),
{
    let ghost c = computation@;
    let ghost n = computation.definitions.len() as int;
    if visits[p] == 2 {
        return (Ok(()), Ghost(finish), Ghost(next));
    }
    if visits[p] == 1 {
        proof {
            assert(stack.contains(p as int));
            let i = choose|i: int| 0 <= i < stack.len() && stack[i] == p as int;
            let cycle = stack.subrange(i, stack.len() as int).push(p as int);
            let tensors = bases_of(c, cycle);
            assert forall|k: int| 0 <= k < tensors.len() implies crate::valid::defines(c, #[trigger] tensors[k]) by {
                assert(0 <= cycle[k] < n) by {
                    if k < cycle.len() - 1 {
                        assert(cycle[k] == stack[i + k]);
                    }
                }
                assert(c.definitions[cycle[k]].base == tensors[k]);
            }
            assert forall|k: int| 0 <= k < tensors.len() - 1 implies crate::valid::depends_on(c, #[trigger] tensors[k], tensors[k + 1]) by {
                assert(cycle[k] == stack[i + k]);
                if k < cycle.len() - 2 {
                    assert(cycle[k + 1] == stack[i + k + 1]);
                    assert(refers(c, stack[i + k], stack[i + k + 1]));
                } else {
                    assert(cycle[k + 1] == p as int);
                    assert(stack[i + k] == stack.last());
                }
                lemma_refers_depends(c, cycle[k], cycle[k + 1]);
            }
            assert(crate::valid::is_dependency_path(c, tensors));
            assert(tensors[0] == tensors.last());
        }
        return (Err(StateError::DependencyCycle { tensor: computation.definitions[p].base }), Ghost(finish), Ghost(next));
    }
    let ghost old_visits = visits@;
    visits.set(p, 1);
    let ghost inner = stack.push(p as int);
    let ghost mut done = finish;
    let ghost mut count = next;
    proof {
        assert forall|x: int| 0 <= x < n && #[trigger] visits@[x] == 1 implies inner.contains(x) by {
            if x != p as int {
                assert(stack.contains(x));
                let i = choose|i: int| 0 <= i < stack.len() && stack[i] == x;
                assert(inner[i] == x);
            } else {
                assert(inner[stack.len() as int] == x);
            }
        }
        assert forall|i: int| 0 <= i < inner.len() - 1 implies refers(c, #[trigger] inner[i], inner[i + 1]) by {
            if i < stack.len() - 1 {
                assert(inner[i] == stack[i] && inner[i + 1] == stack[i + 1]);
            } else {
                assert(inner[i] == stack.last());
            }
        }
        assert forall|i: int| 0 <= i < inner.len() implies 0 <= #[trigger] inner[i] < n && visits@[inner[i]] == 1 by {
            if i < stack.len() {
                assert(inner[i] == stack[i]);
            }
        }
        assert forall|x: int| 0 <= x < n && #[trigger] visits@[x] == 2 implies done[x] < count && forall|q: int|
            0 <= q < n && refers(c, x, q) ==> visits@[q] == 2 && done[q] < done[x] by {
            assert(old_visits[x] == 2);
            assert forall|q: int| 0 <= q < n && refers(c, x, q) implies visits@[q] == 2 && done[q] < done[x] by {
                assert(old_visits[q] == 2);
            }
        }
        lemma_unvisited_fewer(old_visits, visits@, p as int);
    }
    let definition = &computation.definitions[p];
    assert(c.definitions[p as int] == definition@);
    let mut t: usize = 0;
    while t < definition.rhs.len()
        invariant
            t <= definition.rhs.len(),
            visits@.len() == n,
            visits@[p as int] == 1,
            search_invariant(c, visits@, done, count, inner),
            forall|x: int| 0 <= x < n && #[trigger] visits@[x] == 0 ==> old_visits[x] == 0,
            unvisited(visits@) < unvisited(old_visits),
            forall|x: int, f: int, q: int|
                0 <= x < t && 0 <= f < c.definitions[p as int].rhs[x].factors.len() && 0 <= q < n
                    && #[trigger] c.definitions[p as int].rhs[x].factors[f].tensor == #[trigger] c.definitions[q].base ==> visits@[q] == 2,
        decreases definition.rhs.len() - t,
    {
        let term = &definition.rhs[t];
        assert(c.definitions[p as int].rhs[t as int] == term@);
        let mut f: usize = 0;
        while f < term.factors.len()
            invariant
                t < definition.rhs.len(),
                f <= term.factors.len(),
                visits@.len() == n,
                visits@[p as int] == 1,
                search_invariant(c, visits@, done, count, inner),
                forall|x: int| 0 <= x < n && #[trigger] visits@[x] == 0 ==> old_visits[x] == 0,
                unvisited(visits@) < unvisited(old_visits),
                forall|x: int, g: int, q: int|
                    0 <= x < t && 0 <= g < c.definitions[p as int].rhs[x].factors.len() && 0 <= q < n
                        && #[trigger] c.definitions[p as int].rhs[x].factors[g].tensor == #[trigger] c.definitions[q].base ==> visits@[q] == 2,
                forall|g: int, q: int|
                    0 <= g < f && 0 <= q < n
                        && #[trigger] c.definitions[p as int].rhs[t as int].factors[g].tensor == #[trigger] c.definitions[q].base ==> visits@[q] == 2,
            decreases term.factors.len() - f,
        {
            let tensor = term.factors[f].tensor;
            assert(c.definitions[p as int].rhs[t as int].factors[f as int].tensor == tensor);
            let found = find_definition(computation, tensor);
            match found {
                None => {},
                Some(q) => {
                    assert(refers(c, p as int, q as int));
                    assert(inner.last() == p as int);
                    let ghost before = visits@;
                    let (result, Ghost(after_finish), Ghost(after_count)) = visit(
                        computation,
                        q,
                        visits,
                        Ghost(inner),
                        Ghost(done),
                        Ghost(count),
                    );
                    match result {
                        Ok(()) => {},
                        Err(e) => {
                            return (Err(e), Ghost(after_finish), Ghost(after_count));
                        },
                    }
                    proof {
                        done = after_finish;
                        count = after_count;
                        lemma_unvisited_fewer(before, visits@, 0);
                        assert(visits@[p as int] == 1) by {
                            assert(inner[inner.len() - 1] == p as int);
                        }
                    }
                },
            }
            proof {
                assert forall|g: int, q: int|
                    0 <= g < f + 1 && 0 <= q < n
                        && #[trigger] c.definitions[p as int].rhs[t as int].factors[g].tensor == #[trigger] c.definitions[q].base implies visits@[q] == 2 by {
                    if g == f as int {
                        assert(c.definitions[q].base == tensor);
                        assert(crate::valid::defines(c, tensor));
                        let found_q = found.unwrap() as int;
                        assert(c.definitions[found_q].base == tensor);
                        assert(q == found_q);
                    }
                }
            }
            f = f + 1;
        }
        t = t + 1;
    }
    let ghost before_done = visits@;
    visits.set(p, 2);
    proof {
        let done0 = done;
        let count0 = count;
        assert(search_invariant(c, before_done, done0, count0, inner));
        done = done.update(p as int, count);
        count = count + 1;
        assert forall|x: int| 0 <= x < n && #[trigger] visits@[x] == 1 implies stack.contains(x) by {
            assert(x != p as int);
            assert(before_done[x] == 1);
            assert(inner.contains(x));
            let i = choose|i: int| 0 <= i < inner.len() && inner[i] == x;
            if i == stack.len() as int {
                assert(inner[i] == p as int);
            } else {
                assert(stack[i] == x);
            }
        }
        assert forall|i: int| 0 <= i < stack.len() implies 0 <= #[trigger] stack[i] < n && visits@[stack[i]] == 1 by {
            assert(inner[i] == stack[i]);
            assert(stack[i] != p as int) by {
                assert(old_visits[stack[i]] == 1);
            }
        }
        assert forall|i: int| 0 <= i < stack.len() - 1 implies refers(c, #[trigger] stack[i], stack[i + 1]) by {
            assert(inner[i] == stack[i] && inner[i + 1] == stack[i + 1]);
        }
        assert forall|x: int| 0 <= x < n && #[trigger] visits@[x] == 2 implies done[x] < count && forall|q: int|
            0 <= q < n && refers(c, x, q) ==> visits@[q] == 2 && done[q] < done[x] by {
            if x == p as int {
                assert(done[x] == count0);
                assert forall|q: int| 0 <= q < n && refers(c, x, q) implies visits@[q] == 2 && done[q] < done[x] by {
                    let (tt, ff) = choose|tt: int, ff: int|
                        0 <= tt < c.definitions[x].rhs.len() && 0 <= ff < c.definitions[x].rhs[tt].factors.len()
                            && #[trigger] c.definitions[x].rhs[tt].factors[ff].tensor == c.definitions[q].base;
                    assert(c.definitions[p as int].rhs[tt].factors[ff].tensor == c.definitions[q].base);
                    assert(before_done[q] == 2);
                    assert(q != p as int);
                    assert(done0[q] < count0);
                }
            } else {
                assert(before_done[x] == 2);
                assert(done[x] == done0[x]);
                assert forall|q: int| 0 <= q < n && refers(c, x, q) implies visits@[q] == 2 && done[q] < done[x] by {
                    assert(before_done[q] == 2);
                    assert(q != p as int);
                }
            }
        }
        lemma_unvisited_fewer(old_visits, visits@, p as int);
    }
    (Ok(()), Ghost(done), Ghost(count))
}


spec fn position_of(c: ComputationView, tensor: TensorId) -> int {
    choose|p: int| 0 <= p < c.definitions.len() && (#[trigger] c.definitions[p]).base == tensor
}

spec fn distinct_bases(c: ComputationView) -> bool {
    forall|a: int, b: int|
        0 <= a < c.definitions.len() && 0 <= b < c.definitions.len() && a != b
            ==> (#[trigger] c.definitions[a]).base != (#[trigger] c.definitions[b]).base
}

spec fn all_done(c: ComputationView, visits: Seq<u8>, finish: Seq<int>) -> bool {
    &&& visits.len() == c.definitions.len()
    &&& forall|x: int| 0 <= x < c.definitions.len() ==> #[trigger] visits[x] == 2
    &&& forall|x: int, q: int|
        0 <= x < c.definitions.len() && 0 <= q < c.definitions.len() && #[trigger] refers(c, x, q)
            ==> finish[q] < finish[x]
}

proof fn lemma_path_step(c: ComputationView, visits: Seq<u8>, finish: Seq<int>, path: Seq<TensorId>, k: int)
    requires
        distinct_bases(c),
        all_done(c, visits, finish),
        crate::valid::is_dependency_path(c, path),
        0 <= k < path.len() - 1,
    ensures
        finish[position_of(c, path[k + 1])] < finish[position_of(c, path[k])],
{
    assert(crate::valid::defines(c, path[k]));
    assert(crate::valid::defines(c, path[k + 1]));
    let a = position_of(c, path[k]);
    let b = position_of(c, path[k + 1]);
    assert(crate::valid::depends_on(c, path[k], path[k + 1]));
    let (p, t, f) = choose|p: int, t: int, f: int|
        0 <= p < c.definitions.len() && c.definitions[p].base == path[k] && 0 <= t
            < c.definitions[p].rhs.len() && 0 <= f < c.definitions[p].rhs[t].factors.len()
            && #[trigger] c.definitions[p].rhs[t].factors[f].tensor == path[k + 1];
    assert(p == a);
    assert(c.definitions[a].rhs[t].factors[f].tensor == c.definitions[b].base);
    assert(refers(c, a, b));
}

proof fn lemma_path_descends(c: ComputationView, visits: Seq<u8>, finish: Seq<int>, path: Seq<TensorId>, k: int)
    requires
        distinct_bases(c),
        all_done(c, visits, finish),
        crate::valid::is_dependency_path(c, path),
        1 <= k < path.len(),
    ensures
        finish[position_of(c, path[k])] < finish[position_of(c, path[0])],
    decreases k,
{
    lemma_path_step(c, visits, finish, path, k - 1);
    if k > 1 {
        lemma_path_descends(c, visits, finish, path, k - 1);
    }
}

/// Reject a computation with a dependency cycle.
fn validate_acyclic(computation: &Computation) -> (r: Result<(), StateError>)
    requires
        distinct_bases(computation@),
    ensures
        r is Ok <==> crate::valid::acyclic(computation@),
        r matches Err(e) ==> e is DependencyCycle,
{
    let ghost c = computation@;
    let n = computation.definitions.len();
    let mut visits: Vec<u8> = Vec::new();
    let mut k: usize = 0;
    while k < n
        invariant
            k <= n,
            visits@.len() == k,
            forall|x: int| 0 <= x < k ==> #[trigger] visits@[x] == 0,
        decreases n - k,
    {
        visits.push(0);
        k = k + 1;
    }
    let ghost mut finish: Seq<int> = Seq::new(n as nat, |x: int| 0int);
    let ghost mut next: int = 0;
    let mut p: usize = 0;
    while p < n
        invariant
            p <= n == c.definitions.len(),
            c == computation@,
            distinct_bases(c),
            search_invariant(c, visits@, finish, next, Seq::empty()),
            forall|x: int| 0 <= x < p ==> #[trigger] visits@[x] == 2,
        decreases n - p,
    {
        let (result, Ghost(after_finish), Ghost(after_next)) = visit(
            computation,
            p,
            &mut visits,
            Ghost(Seq::empty()),
            Ghost(finish),
            Ghost(next),
        );
        match result {
            Ok(()) => {},
            Err(e) => {
                return Err(e);
            },
        }
        proof {
            finish = after_finish;
            next = after_next;
            assert forall|x: int| 0 <= x < p + 1 implies #[trigger] visits@[x] == 2 by {
                if x < p {
                    assert(visits@[x] != 0);
                    assert(visits@[x] != 1) by {
                        if visits@[x] == 1 {
                            assert(Seq::<int>::empty().contains(x));
                        }
                    }
                }
            }
        }
        p = p + 1;
    }
    proof {
        assert forall|x: int, q: int|
            0 <= x < c.definitions.len() && 0 <= q < c.definitions.len() && #[trigger] refers(c, x, q)
                implies finish[q] < finish[x] by {
            assert(search_invariant(c, visits@, finish, next, Seq::empty()));
            assert(visits@[x] == 2);
            assert(0 <= q < c.definitions.len() && refers(c, x, q) ==> visits@[q] == 2 && finish[q] < finish[x]);
        }
        assert(all_done(c, visits@, finish));
        assert forall|path: Seq<TensorId>|
            #[trigger] crate::valid::is_dependency_path(c, path) && path.len() >= 2 implies path[0] != path.last() by {
            lemma_path_descends(c, visits@, finish, path, path.len() - 1);
            if path[0] == path.last() {
                assert(crate::valid::defines(c, path[0]));
            }
        }
    }
    Ok(())
}



// ----------------------------------------------------------------------------
// States
// ----------------------------------------------------------------------------

/// The abstract form of a state.
#[verifier::ext_equal]
pub struct StateView {
    pub computation: ComputationView,
    pub protected_outputs: Seq<TensorId>,
}

/// What every state keeps: a valid computation in canonical shape with
/// valid protected outputs.
pub open spec fn state_valid(c: ComputationView, outputs: Seq<TensorId>) -> bool {
    &&& computation_valid(c)
    &&& outputs_valid(c, outputs)
    &&& forall|p: int|
        0 <= p < c.definitions.len() ==> definition_canonical(#[trigger] c.definitions[p])
}

/// A structurally valid computation with canonical terms and protected outputs.
#[derive(Debug, PartialEq, Eq)]
pub struct State {
    computation: Computation,
    protected_outputs: Vec<TensorId>,
}

impl View for State {
    type V = StateView;

    closed spec fn view(&self) -> StateView {
        StateView { computation: self.computation@, protected_outputs: self.protected_outputs@ }
    }
}

impl State {
    #[verifier::type_invariant]
    spec fn well_formed(self) -> bool {
        state_valid(self.computation@, self.protected_outputs@)
    }

    /// Validate and canonicalize a computation, then establish its outputs.
    pub fn new(computation: Computation, protected_outputs: Vec<TensorId>) -> (r: Result<
        State,
        StateError,
    >)
        ensures
            !computation_valid(computation@) ==> (r matches Err(e) && is_validation_error(e)),
            computation_valid(computation@) && !outputs_valid(computation@, protected_outputs@)
                ==> (r matches Err(e) && is_validation_error(e)),
            computation_valid(computation@) && outputs_valid(computation@, protected_outputs@)
                ==> r is Ok || r == Err::<State, StateError>(
                StateError::Canonicalization(CanonError::ExhaustedIndexIds),
            ) || r matches Err(StateError::DependencyCycle { .. }),
            r matches Ok(s) ==> {
                &&& computation_valid(computation@)
                &&& outputs_valid(computation@, protected_outputs@)
                &&& canonical_form(computation@, s@.computation)
                &&& s@.protected_outputs == protected_outputs@
                &&& state_valid(s@.computation, s@.protected_outputs)
                &&& crate::valid::acyclic(s@.computation)
            },
            r matches Err(StateError::DependencyCycle { .. }) ==> exists|out: ComputationView|
                #[trigger] canonical_form(computation@, out) && !crate::valid::acyclic(out),
            r == Err::<State, StateError>(StateError::Canonicalization(CanonError::ExhaustedIndexIds)) ==> exists|p: int|
                0 <= p < computation@.definitions.len() && self::canonicalize::definition_exhausts(
                    #[trigger] computation@.definitions[p],
                ),
            r matches Err(StateError::Canonicalization(e)) ==> e == CanonError::ExhaustedIndexIds,
            r matches Err(e) ==> (is_validation_error(e) ==> computation_error(computation@, e) || (computation_valid(
                computation@,
            ) && outputs_error(computation@, protected_outputs@, e))),
    {
        validate_computation(&computation)?;
        validate_protected_outputs(&computation, protected_outputs.as_slice())?;
        let canonical = match canonicalize_definitions(&computation) {
            Ok(canonical) => canonical,
            Err(e) => {
                return Err(StateError::Canonicalization(e));
            },
        };
        proof {
            lemma_canonical_form_valid(computation@, canonical@, protected_outputs@);
        }
        validate_acyclic(&canonical)?;
        Ok(State { computation: canonical, protected_outputs })
    }

    /// The canonical computation.
    pub fn computation(&self) -> (r: &Computation)
        ensures
            r@ == self@.computation,
            state_valid(self@.computation, self@.protected_outputs),
    {
        proof {
            use_type_invariant(self);
        }
        &self.computation
    }

    /// The protected outputs, in the order they were given.
    pub fn protected_outputs(&self) -> (r: &[TensorId])
        ensures
            r@ == self@.protected_outputs,
            state_valid(self@.computation, self@.protected_outputs),
    {
        proof {
            use_type_invariant(self);
        }
        self.protected_outputs.as_slice()
    }

    /// Move the parts out, leaving an empty state behind.
    fn take_parts(&mut self) -> (r: (Computation, Vec<TensorId>))
        ensures
            r.0@ == old(self)@.computation,
            r.1@ == old(self)@.protected_outputs,
            state_valid(r.0@, r.1@),
    {
        let mut owned = State {
            computation: Computation {
                ranges: Vec::new(),
                tensors: Vec::new(),
                definitions: Vec::new(),
            },
            protected_outputs: Vec::new(),
        };
        proof {
            assert(owned@.computation.definitions =~= Seq::<crate::repr::TensorDefView>::empty());
        }
        std::mem::swap(self, &mut owned);
        owned.into_parts()
    }

    /// Install valid parts.
    fn put_parts(&mut self, computation: Computation, protected_outputs: Vec<TensorId>)
        requires
            state_valid(computation@, protected_outputs@),
        ensures
            final(self)@.computation == computation@,
            final(self)@.protected_outputs == protected_outputs@,
    {
        *self = State { computation, protected_outputs };
    }

    /// The computation and protected outputs, by value.
    pub fn into_parts(self) -> (r: (Computation, Vec<TensorId>))
        ensures
            r.0@ == self@.computation,
            r.1@ == self@.protected_outputs,
            state_valid(r.0@, r.1@),
    {
        proof {
            use_type_invariant(&self);
        }
        (self.computation, self.protected_outputs)
    }
}

impl Clone for State {
    fn clone(&self) -> (r: Self)
        ensures
            r@ == self@,
    {
        proof {
            use_type_invariant(self);
        }
        let computation = self.computation.clone();
        let protected_outputs = self.protected_outputs.clone();
        assert(protected_outputs@ =~= self.protected_outputs@);
        State { computation, protected_outputs }
    }
}


// ----------------------------------------------------------------------------
// Replacing terms
// ----------------------------------------------------------------------------

/// The first `n` terms of `rhs` whose positions `removed` does not list.
pub open spec fn kept_prefix(rhs: Seq<TermView>, removed: Seq<usize>, n: nat) -> Seq<TermView>
    decreases n,
{
    if n == 0 {
        Seq::empty()
    } else {
        let prev = kept_prefix(rhs, removed, (n - 1) as nat);
        if removed.contains((n - 1) as usize) {
            prev
        } else {
            prev.push(rhs[n - 1])
        }
    }
}

/// The terms of `rhs` whose positions `removed` does not list, in order.
pub open spec fn kept_terms(rhs: Seq<TermView>, removed: Seq<usize>) -> Seq<TermView> {
    kept_prefix(rhs, removed, rhs.len())
}

/// The definition `d` with the listed terms removed and `replacements`
/// appended.
pub open spec fn replaced_definition(
    d: TensorDefView,
    removed: Seq<usize>,
    replacements: Seq<TermView>,
) -> TensorDefView {
    TensorDefView { base: d.base, exts: d.exts, rhs: kept_terms(d.rhs, removed) + replacements }
}

/// `after` is `before` with the terms at `removed` of definition
/// `definition` replaced by `replacements` and that definition
/// recanonicalized.
pub open spec fn replaces_terms(
    before: StateView,
    definition: int,
    removed: Seq<usize>,
    replacements: Seq<TermView>,
    after: StateView,
) -> bool {
    let c = before.computation;
    let updated = replaced_definition(c.definitions[definition], removed, replacements);
    &&& 0 <= definition < c.definitions.len()
    &&& forall|k: int| 0 <= k < removed.len() ==> removed[k] < c.definitions[definition].rhs.len()
    &&& body_valid(c, updated.exts, updated.rhs)
    &&& after.protected_outputs == before.protected_outputs
    &&& exists|out: TensorDefView|
        #[trigger] canonical_definition_of(c, updated, out) && after.computation
            == ComputationView { definitions: c.definitions.update(definition, out), ..c }
}

/// Why replacing terms of a definition fails with `e`: the definition or a
/// removed term is out of bounds, the updated definition is invalid, or the
/// identities run out for it.
pub open spec fn replace_failure(
    before: StateView,
    definition: int,
    removed: Seq<usize>,
    replacements: Seq<TermView>,
    e: StateError,
) -> bool {
    let c = before.computation;
    if definition < 0 || definition >= c.definitions.len() {
        e == StateError::DefinitionOutOfBounds { position: definition as usize }
    } else if exists|k: int| 0 <= k < removed.len() && removed[k] >= c.definitions[definition].rhs.len() {
        exists|k: int|
            0 <= k < removed.len() && removed[k] >= c.definitions[definition].rhs.len() && (forall|j: int|
                0 <= j < k ==> removed[j] < c.definitions[definition].rhs.len()) && e == StateError::TermOutOfBounds {
                definition: definition as usize,
                term: #[trigger] removed[k],
            }
    } else {
        let updated = replaced_definition(c.definitions[definition], removed, replacements);
        if !body_valid(c, updated.exts, updated.rhs) {
            is_validation_error(e)
        } else {
            e == StateError::Canonicalization(CanonError::ExhaustedIndexIds)
                && self::canonicalize::definition_exhausts(updated)
        }
    }
}

impl State {
    /// Replace selected terms of one definition and recanonicalize it.
    #[verifier::loop_isolation(false)]
    pub fn replace_terms(&mut self, definition: usize, removed: &[usize], replacements: Vec<Term>) -> (r:
        Result<(), StateError>)
        ensures
            final(self)@.protected_outputs == old(self)@.protected_outputs,
            r is Err ==> final(self)@ == old(self)@,
            definition >= old(self)@.computation.definitions.len() ==> r == Err::<(), StateError>(
                StateError::DefinitionOutOfBounds { position: definition },
            ),
            r is Ok ==> replaces_terms(
                old(self)@,
                definition as int,
                removed@,
                terms_view(replacements@),
                final(self)@,
            ),
            r is Ok ==> state_valid(final(self)@.computation, final(self)@.protected_outputs),
            r matches Err(e) ==> replace_failure(old(self)@, definition as int, removed@, terms_view(replacements@), e),
            definition < old(self)@.computation.definitions.len() ==> {
                let c = old(self)@.computation;
                let d = c.definitions[definition as int];
                let updated = replaced_definition(d, removed@, terms_view(replacements@));
                &&& (exists|k: int| 0 <= k < removed.len() && removed@[k] >= d.rhs.len())
                    ==> exists|k: int|
                    0 <= k < removed.len() && removed@[k] >= d.rhs.len() && (forall|j: int|
                        0 <= j < k ==> removed@[j] < d.rhs.len()) && r == Err::<(), StateError>(
                        StateError::TermOutOfBounds { definition, term: #[trigger] removed@[k] },
                    )
                &&& (forall|k: int| 0 <= k < removed.len() ==> removed@[k] < d.rhs.len()) ==> {
                    &&& !body_valid(c, updated.exts, updated.rhs) ==> (r matches Err(e)
                        && is_validation_error(e))
                    &&& body_valid(c, updated.exts, updated.rhs) ==> (r is Ok || r == Err::<
                        (),
                        StateError,
                    >(StateError::Canonicalization(CanonError::ExhaustedIndexIds)))
                }
            },
    {
        proof {
            use_type_invariant(&*self);
        }
        let ghost c = self@.computation;
        if definition >= self.computation.definitions.len() {
            return Err(StateError::DefinitionOutOfBounds { position: definition });
        }
        let current = &self.computation.definitions[definition];
        let ghost d = current@;
        assert(c.definitions[definition as int] == d);
        let mut remove: Vec<bool> = Vec::new();
        let mut i: usize = 0;
        while i < current.rhs.len()
            invariant
                i <= current.rhs.len(),
                remove@.len() == i,
                forall|j: int| 0 <= j < i ==> !remove@[j],
            decreases current.rhs.len() - i,
        {
            remove.push(false);
            i = i + 1;
        }
        let mut k: usize = 0;
        while k < removed.len()
            invariant
                k <= removed.len(),
                remove@.len() == current.rhs.len(),
                forall|j: int| 0 <= j < k ==> removed@[j] < current.rhs.len(),
                forall|x: int|
                    0 <= x < current.rhs.len() ==> #[trigger] remove@[x] == removed@.subrange(
                        0,
                        k as int,
                    ).contains(x as usize),
            decreases removed.len() - k,
        {
            let term = removed[k];
            if term >= remove.len() {
                return Err(StateError::TermOutOfBounds { definition, term });
            }
            remove.set(term, true);
            proof {
                assert forall|x: int| 0 <= x < current.rhs.len() implies #[trigger] remove@[x]
                    == removed@.subrange(0, k + 1).contains(x as usize) by {
                    let next = removed@.subrange(0, k + 1);
                    assert(next =~= removed@.subrange(0, k as int).push(term));
                    if removed@.subrange(0, k as int).contains(x as usize) {
                        let j = choose|j: int| 0 <= j < k && removed@.subrange(0, k as int)[j] == x as usize;
                        assert(next[j] == x as usize);
                    }
                    if x == term {
                        assert(next[k as int] == term);
                    }
                }
            }
            k = k + 1;
        }
        assert(removed@.subrange(0, removed.len() as int) =~= removed@);
        let mut rhs: Vec<Term> = Vec::new();
        let mut t: usize = 0;
        while t < current.rhs.len()
            invariant
                t <= current.rhs.len(),
                remove@.len() == current.rhs.len(),
                forall|x: int|
                    0 <= x < current.rhs.len() ==> #[trigger] remove@[x] == removed@.contains(
                        x as usize,
                    ),
                terms_view(rhs@) =~= kept_prefix(d.rhs, removed@, t as nat),
            decreases current.rhs.len() - t,
        {
            assert(d.rhs[t as int] == current.rhs@[t as int]@);
            assert(remove@[t as int] == removed@.contains(t as usize));
            if !remove[t] {
                rhs.push(current.rhs[t].clone());
            }
            t = t + 1;
        }
        let ghost kept = terms_view(rhs@);
        let mut r_index: usize = 0;
        while r_index < replacements.len()
            invariant
                r_index <= replacements.len(),
                terms_view(rhs@) =~= kept + terms_view(replacements@).subrange(0, r_index as int),
            decreases replacements.len() - r_index,
        {
            let ghost before = rhs@;
            let term = replacements[r_index].clone();
            rhs.push(term);
            proof {
                assert(terms_view(rhs@) =~= terms_view(before).push(term@));
                assert(terms_view(replacements@).subrange(0, r_index + 1) =~= terms_view(
                    replacements@,
                ).subrange(0, r_index as int).push(replacements@[r_index as int]@));
            }
            r_index = r_index + 1;
        }
        assert(terms_view(replacements@).subrange(0, replacements.len() as int) =~= terms_view(replacements@));
        let exts = current.exts.clone();
        let updated = TensorDef { base: current.base, exts, rhs };
        assert(updated@ =~= replaced_definition(d, removed@, terms_view(replacements@)));
        validate_definition(&self.computation, &updated)?;
        let canonical = match canonicalize_definition(&self.computation, &updated) {
            Ok(canonical) => canonical,
            Err(e) => {
                assert(e == CanonError::ExhaustedIndexIds ==> self::canonicalize::definition_exhausts(updated@));
                return Err(StateError::Canonicalization(e));
            },
        };
        let ghost out = canonical@;
        let ghost next = ComputationView { definitions: c.definitions.update(definition as int, out), ..c };
        proof {
            lemma_canonical_shape(c, updated@, out);
            assert forall|p: int| 0 <= p < next.definitions.len() implies crate::valid::definition_valid(
                next,
                #[trigger] next.definitions[p],
            ) by {
                let e = next.definitions[p];
                crate::valid::lemma_body_valid_context(c, next, e.exts, e.rhs);
                if p != definition {
                    assert(e == c.definitions[p]);
                }
            }
            assert forall|a: int, b: int|
                0 <= a < next.definitions.len() && 0 <= b < next.definitions.len() && a != b implies (
                #[trigger] next.definitions[a]).base != (#[trigger] next.definitions[b]).base by {
                assert(next.definitions[a].base == c.definitions[a].base);
                assert(next.definitions[b].base == c.definitions[b].base);
            }
            assert forall|x: int| 0 <= x < self@.protected_outputs.len() implies lookup_tensor(
                next.tensors,
                #[trigger] self@.protected_outputs[x],
            ) is Some && crate::valid::defines(next, self@.protected_outputs[x]) by {
                let t = self@.protected_outputs[x];
                assert(crate::valid::defines(c, t));
                let p = choose|p: int| 0 <= p < c.definitions.len() && (#[trigger] c.definitions[p]).base == t;
                assert(next.definitions[p].base == t);
            }
            assert forall|p: int| 0 <= p < next.definitions.len() implies definition_canonical(
                #[trigger] next.definitions[p],
            ) by {
                if p != definition {
                    assert(next.definitions[p] == c.definitions[p]);
                }
            }
            assert(state_valid(next, self@.protected_outputs));
        }
        let (mut computation, outputs) = self.take_parts();
        let ghost before = computation.definitions@;
        computation.definitions.set(definition, canonical);
        proof {
            assert(definitions_view(computation.definitions@) =~= definitions_view(before).update(
                definition as int,
                out,
            ));
            assert(computation@ =~= next);
        }
        self.put_parts(computation, outputs);
        Ok(())
    }
}

} // verus!
