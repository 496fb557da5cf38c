//! Well-formedness of computations, definitions and terms.

use crate::repr::{
    ComputationView, GeneratorView, Index, IndexId, RangeId, TensorDefView, TensorId,
    TensorInfoView, TensorRefView, TermView,
};
use vstd::prelude::*;

verus! {

/// The metadata of the first entry for `tensor` in a tensor table.
pub open spec fn lookup_tensor(tensors: Seq<(TensorId, TensorInfoView)>, tensor: TensorId) -> Option<
    TensorInfoView,
>
    decreases tensors.len(),
{
    if tensors.len() == 0 {
        None
    } else if tensors[0].0 == tensor {
        Some(tensors[0].1)
    } else {
        lookup_tensor(tensors.drop_first(), tensor)
    }
}

/// Looking a tensor up in a suffix that starts after a non-matching entry.
pub proof fn lemma_lookup_skip(
    tensors: Seq<(TensorId, TensorInfoView)>,
    tensor: TensorId,
    i: int,
)
    requires
        0 <= i < tensors.len(),
        tensors[i].0 != tensor,
    ensures
        lookup_tensor(tensors.subrange(i, tensors.len() as int), tensor) == lookup_tensor(
            tensors.subrange(i + 1, tensors.len() as int),
            tensor,
        ),
{
    assert(tensors.subrange(i, tensors.len() as int).drop_first() =~= tensors.subrange(
        i + 1,
        tensors.len() as int,
    ));
}

/// Whether an index with identity `id` occurs in `indices`.
pub open spec fn has_id(indices: Seq<Index>, id: IndexId) -> bool {
    exists|k: int| 0 <= k < indices.len() && (#[trigger] indices[k]).id == id
}

/// No identity occurs twice in `indices`.
pub open spec fn distinct_ids(indices: Seq<Index>) -> bool {
    forall|a: int, b: int|
        0 <= a < indices.len() && 0 <= b < indices.len() && a != b ==> (#[trigger] indices[a]).id
            != (#[trigger] indices[b]).id
}

/// `perm` is a permutation of `0..rank`.
pub open spec fn perm_valid(perm: Seq<usize>, rank: nat) -> bool {
    &&& perm.len() == rank
    &&& forall|k: int| 0 <= k < rank ==> #[trigger] perm[k] < rank
    &&& forall|a: int, b: int|
        0 <= a < rank && 0 <= b < rank && a != b ==> #[trigger] perm[a] != #[trigger] perm[b]
}

/// A generator is a permutation of `0..rank`.
pub open spec fn generator_valid(generator: GeneratorView, rank: nat) -> bool {
    perm_valid(generator.perm, rank)
}

/// Every symmetry generator of a tensor is a permutation of its slots.
pub open spec fn info_valid(info: TensorInfoView) -> bool {
    forall|k: int|
        0 <= k < info.symmetry.len() ==> generator_valid(
            #[trigger] info.symmetry[k],
            info.rank as nat,
        )
}

/// A factor names a known tensor with valid symmetry, has its arity, and
/// uses only indices in scope.
pub open spec fn factor_valid(
    c: ComputationView,
    fixed: Seq<Index>,
    sums: Seq<Index>,
    factor: TensorRefView,
) -> bool {
    &&& lookup_tensor(c.tensors, factor.tensor) is Some
    &&& lookup_tensor(c.tensors, factor.tensor).unwrap().rank == factor.indices.len()
    &&& info_valid(lookup_tensor(c.tensors, factor.tensor).unwrap())
    &&& forall|k: int|
        0 <= k < factor.indices.len() ==> has_id(fixed, #[trigger] factor.indices[k]) || has_id(
            sums,
            factor.indices[k],
        )
}

/// The local context of a term: fixed and summed identities are distinct and
/// apart, and every factor is valid in that scope.
pub open spec fn term_context_valid(c: ComputationView, fixed: Seq<Index>, term: TermView) -> bool {
    &&& distinct_ids(fixed)
    &&& distinct_ids(term.sums)
    &&& forall|k: int| 0 <= k < term.sums.len() ==> !has_id(fixed, (#[trigger] term.sums[k]).id)
    &&& forall|f: int|
        0 <= f < term.factors.len() ==> factor_valid(c, fixed, term.sums, #[trigger] term.factors[f])
}

/// Whether some factor of a term uses the identity `id`.
pub open spec fn term_uses(term: TermView, id: IndexId) -> bool {
    exists|f: int, k: int|
        0 <= f < term.factors.len() && 0 <= k < term.factors[f].indices.len()
            && #[trigger] term.factors[f].indices[k] == id
}

/// A term of a definition: valid in the definition's scope, with declared
/// ranges and with every summed index used.
pub open spec fn term_valid(c: ComputationView, exts: Seq<Index>, term: TermView) -> bool {
    &&& term_context_valid(c, exts, term)
    &&& forall|k: int| 0 <= k < term.sums.len() ==> c.ranges.contains((#[trigger] term.sums[k]).range)
    &&& forall|k: int| 0 <= k < term.sums.len() ==> term_uses(term, (#[trigger] term.sums[k]).id)
}

/// Distinct externals of declared ranges, and terms valid in their scope.
pub open spec fn body_valid(c: ComputationView, exts: Seq<Index>, rhs: Seq<TermView>) -> bool {
    &&& distinct_ids(exts)
    &&& forall|k: int| 0 <= k < exts.len() ==> c.ranges.contains((#[trigger] exts[k]).range)
    &&& forall|t: int| 0 <= t < rhs.len() ==> term_valid(c, exts, #[trigger] rhs[t])
}

/// A definition of a known tensor with matching arity and a valid body.
pub open spec fn definition_valid(c: ComputationView, d: TensorDefView) -> bool {
    &&& lookup_tensor(c.tensors, d.base) is Some
    &&& lookup_tensor(c.tensors, d.base).unwrap().rank == d.exts.len()
    &&& body_valid(c, d.exts, d.rhs)
}

/// Validity of a term depends only on the declared ranges and tensors.
pub proof fn lemma_term_valid_context(c1: ComputationView, c2: ComputationView, exts: Seq<Index>, t: TermView)
    requires
        c1.ranges == c2.ranges,
        c1.tensors == c2.tensors,
    ensures
        term_valid(c1, exts, t) == term_valid(c2, exts, t),
        term_context_valid(c1, exts, t) == term_context_valid(c2, exts, t),
{
    assert forall|f: int| 0 <= f < t.factors.len() implies factor_valid(c1, exts, t.sums, #[trigger] t.factors[f]) == factor_valid(c2, exts, t.sums, t.factors[f]) by {}
}

/// Validity of a definition body depends only on the declared ranges and
/// tensors.
pub proof fn lemma_body_valid_context(c1: ComputationView, c2: ComputationView, exts: Seq<Index>, rhs: Seq<TermView>)
    requires
        c1.ranges == c2.ranges,
        c1.tensors == c2.tensors,
    ensures
        body_valid(c1, exts, rhs) == body_valid(c2, exts, rhs),
{
    assert forall|t: int| 0 <= t < rhs.len() implies term_valid(c1, exts, #[trigger] rhs[t]) == term_valid(c2, exts, rhs[t]) by {
        lemma_term_valid_context(c1, c2, exts, rhs[t]);
    }
}

/// Whether some definition defines `tensor`.
pub open spec fn defines(c: ComputationView, tensor: TensorId) -> bool {
    exists|p: int| 0 <= p < c.definitions.len() && (#[trigger] c.definitions[p]).base == tensor
}

/// A structurally valid computation.
pub open spec fn computation_valid(c: ComputationView) -> bool {
    &&& forall|k: int| 0 <= k < c.tensors.len() ==> info_valid((#[trigger] c.tensors[k]).1)
    &&& forall|p: int|
        0 <= p < c.definitions.len() ==> definition_valid(c, #[trigger] c.definitions[p])
    &&& forall|a: int, b: int|
        0 <= a < c.definitions.len() && 0 <= b < c.definitions.len() && a != b
            ==> (#[trigger] c.definitions[a]).base != (#[trigger] c.definitions[b]).base
}

/// Protected outputs are distinct, known and defined.
pub open spec fn outputs_valid(c: ComputationView, outputs: Seq<TensorId>) -> bool {
    &&& forall|a: int, b: int|
        0 <= a < outputs.len() && 0 <= b < outputs.len() && a != b ==> outputs[a] != outputs[b]
    &&& forall|k: int|
        0 <= k < outputs.len() ==> lookup_tensor(c.tensors, #[trigger] outputs[k]) is Some
            && defines(c, outputs[k])
}

/// Whether the definition of `from` has a factor naming `to`.
pub open spec fn depends_on(c: ComputationView, from: TensorId, to: TensorId) -> bool {
    exists|p: int, t: int, f: int|
        0 <= p < c.definitions.len() && c.definitions[p].base == from && 0 <= t
            < c.definitions[p].rhs.len() && 0 <= f < c.definitions[p].rhs[t].factors.len()
            && #[trigger] c.definitions[p].rhs[t].factors[f].tensor == to
}

/// A chain of defined tensors, each depending on the next.
pub open spec fn is_dependency_path(c: ComputationView, path: Seq<TensorId>) -> bool {
    &&& path.len() >= 1
    &&& forall|k: int| 0 <= k < path.len() ==> defines(c, #[trigger] path[k])
    &&& forall|k: int| 0 <= k < path.len() - 1 ==> depends_on(c, #[trigger] path[k], path[k + 1])
}

/// No defined tensor depends on itself, directly or through other definitions.
pub open spec fn acyclic(c: ComputationView) -> bool {
    forall|path: Seq<TensorId>|
        #[trigger] is_dependency_path(c, path) && path.len() >= 2 ==> path[0] != path.last()
}

} // verus!
