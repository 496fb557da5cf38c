//! Positional renumbering of definition-local indices and canonicalization of
//! whole definitions.

use crate::canon::{canon_expr, canonical_terms, CanonError};
use crate::repr::{
    terms_view, Computation, ComputationView, Index, IndexId, TensorDef, TensorDefView, TensorRef,
    Term, TermView,
};
use crate::repr::TensorId;
use crate::valid::{
    body_valid, computation_valid, defines, definition_valid, factor_valid, has_id, outputs_valid,
    term_context_valid, term_uses, term_valid,
};
use vstd::prelude::*;

verus! {

/// The index identity for a position, if it fits in 32 bits.
pub fn index_id(position: usize) -> (r: Result<IndexId, CanonError>)
    ensures
        position <= u32::MAX ==> r == Ok::<IndexId, CanonError>(IndexId(position as u32)),
        position > u32::MAX ==> r == Err::<IndexId, CanonError>(CanonError::ExhaustedIndexIds),
{
    if position <= 0xffff_ffff {
        Ok(IndexId(position as u32))
    } else {
        Err(CanonError::ExhaustedIndexIds)
    }
}

/// Externals numbered by position, with their ranges kept.
pub open spec fn positional_exts(exts: Seq<Index>, renamed: Seq<Index>) -> bool {
    &&& renamed.len() == exts.len()
    &&& forall|k: int|
        0 <= k < exts.len() ==> (#[trigger] renamed[k]).id.0 == k && renamed[k].range
            == exts[k].range
}

/// `t` is `term` with its summed indices numbered after the externals, every
/// factor index renamed to the position of its external or summed index, and
/// its coefficient kept.
pub open spec fn renames_to_positions(exts: Seq<Index>, term: TermView, t: TermView) -> bool {
    &&& t.coeff == term.coeff
    &&& t.sums.len() == term.sums.len()
    &&& forall|x: int|
        0 <= x < t.sums.len() ==> (#[trigger] t.sums[x]).id.0 == exts.len() + x && t.sums[x].range
            == term.sums[x].range
    &&& t.factors.len() == term.factors.len()
    &&& forall|g: int|
        0 <= g < t.factors.len() ==> (#[trigger] t.factors[g]).tensor == term.factors[g].tensor
            && t.factors[g].indices.len() == term.factors[g].indices.len()
    &&& forall|g: int, k: int, x: int|
        #![trigger term.factors[g].indices[k], term.sums[x]]
        0 <= g < t.factors.len() && 0 <= k < term.factors[g].indices.len() && 0 <= x
            < term.sums.len() && term.factors[g].indices[k] == term.sums[x].id
            ==> t.factors[g].indices[k].0 == exts.len() + x
    &&& forall|g: int, k: int, y: int|
        #![trigger term.factors[g].indices[k], exts[y]]
        0 <= g < t.factors.len() && 0 <= k < term.factors[g].indices.len() && 0 <= y < exts.len()
            && term.factors[g].indices[k] == exts[y].id ==> t.factors[g].indices[k].0 == y
}

/// Rename a term's externals and sums to positional identities.
#[verifier::loop_isolation(false)]
#[verifier::rlimit(40)]
fn rename_term_positions(
    computation: &Computation,
    exts: &Vec<Index>,
    renamed_exts: &Vec<Index>,
    term: &Term,
) -> (r: Result<Term, CanonError>)
    requires
        positional_exts(exts@, renamed_exts@),
    ensures
        term_valid(computation@, exts@, term@) ==> match r {
            Ok(t) => term_valid(computation@, renamed_exts@, t@) && renames_to_positions(
                exts@,
                term@,
                t@,
            ),
            Err(e) => e == CanonError::ExhaustedIndexIds,
        },
        r matches Err(CanonError::ExhaustedIndexIds) ==> exts.len() + term.sums.len() > u32::MAX + 1,
        r matches Ok(t) ==> t@.sums.len() == term@.sums.len(),
{
    let n = exts.len();
    let ghost valid = term_valid(computation@, exts@, term@);
    let mut sums: Vec<Index> = Vec::new();
    let mut j: usize = 0;
    while j < term.sums.len()
        invariant
            j <= term.sums.len(),
            sums@.len() == j,
            forall|x: int|
                0 <= x < j ==> (#[trigger] sums@[x]).id.0 == n + x && sums@[x].range
                    == term.sums@[x].range,
        decreases term.sums.len() - j,
    {
        if n > usize::MAX - j {
            return Err(CanonError::ExhaustedIndexIds);
        }
        let id = index_id(n + j)?;
        sums.push(Index { id, range: term.sums[j].range });
        j = j + 1;
    }
    let mut factors: Vec<TensorRef> = Vec::new();
    let mut f: usize = 0;
    while f < term.factors.len()
        invariant
            f <= term.factors.len(),
            factors@.len() == f,
            sums@.len() == term.sums.len(),
            forall|x: int|
                0 <= x < term.sums.len() ==> (#[trigger] sums@[x]).id.0 == n + x && sums@[x].range
                    == term.sums@[x].range,
            valid ==> forall|g: int|
                0 <= g < f ==> {
                    &&& (#[trigger] factors@[g]).tensor == term.factors@[g].tensor
                    &&& factors@[g].indices.len() == term.factors@[g].indices.len()
                    &&& forall|k: int|
                        0 <= k < factors@[g].indices.len() ==> has_id(
                            renamed_exts@,
                            #[trigger] factors@[g].indices@[k],
                        ) || has_id(sums@, factors@[g].indices@[k])
                    &&& forall|k: int, x: int|
                        #![trigger term.factors@[g].indices@[k], term.sums@[x]]
                        0 <= k < factors@[g].indices.len() && 0 <= x < term.sums.len()
                            && term.factors@[g].indices@[k] == term.sums@[x].id
                            ==> factors@[g].indices@[k] == sums@[x].id
                    &&& forall|k: int, y: int|
                        #![trigger term.factors@[g].indices@[k], exts@[y]]
                        0 <= k < factors@[g].indices.len() && 0 <= y < exts.len()
                            && term.factors@[g].indices@[k] == exts@[y].id
                            ==> factors@[g].indices@[k] == renamed_exts@[y].id
                },
        decreases term.factors.len() - f,
    {
        let factor = &term.factors[f];
        let mut indices: Vec<IndexId> = Vec::new();
        let mut k: usize = 0;
        while k < factor.indices.len()
            invariant
                f < term.factors.len(),
                k <= factor.indices.len(),
                indices@.len() == k,
                valid ==> {
                    &&& forall|y: int|
                        0 <= y < k ==> has_id(renamed_exts@, #[trigger] indices@[y]) || has_id(
                            sums@,
                            indices@[y],
                        )
                    &&& forall|y: int, x: int|
                        #![trigger factor.indices@[y], term.sums@[x]]
                        0 <= y < k && 0 <= x < term.sums.len() && factor.indices@[y]
                            == term.sums@[x].id ==> indices@[y] == sums@[x].id
                    &&& forall|y: int, e: int|
                        #![trigger factor.indices@[y], exts@[e]]
                        0 <= y < k && 0 <= e < exts.len() && factor.indices@[y] == exts@[e].id
                            ==> indices@[y] == renamed_exts@[e].id
                },
            decreases factor.indices.len() - k,
        {
            let index = factor.indices[k];
            let mut found: Option<IndexId> = None;
            let mut x: usize = 0;
            while x < term.sums.len()
                invariant
                    x <= term.sums.len(),
                    found is None ==> forall|y: int|
                        0 <= y < x ==> (#[trigger] term.sums@[y]).id != index,
                    found matches Some(id) ==> exists|y: int|
                        0 <= y < term.sums.len() && (#[trigger] term.sums@[y]).id == index
                            && sums@[y].id == id,
                decreases term.sums.len() - x,
            {
                if found.is_none() && term.sums[x].id == index {
                    found = Some(sums[x].id);
                }
                x = x + 1;
            }
            let ghost from_sums = found is Some;
            if found.is_none() {
                let mut e: usize = 0;
                while e < exts.len()
                    invariant
                        e <= exts.len(),
                        found is None ==> forall|y: int|
                            0 <= y < e ==> (#[trigger] exts@[y]).id != index,
                        found matches Some(id) ==> exists|y: int|
                            0 <= y < exts.len() && (#[trigger] exts@[y]).id == index
                                && renamed_exts@[y].id == id,
                    decreases exts.len() - e,
                {
                    if found.is_none() && exts[e].id == index {
                        found = Some(renamed_exts[e].id);
                    }
                    e = e + 1;
                }
            }
            let id = match found {
                Some(id) => id,
                None => {
                    proof {
                        if valid {
                            assert(term@.factors[f as int] == factor@);
                            assert(factor@.indices[k as int] == index);
                            assert(has_id(exts@, index) || has_id(term.sums@, index));
                            if has_id(exts@, index) {
                                let y = choose|y: int|
                                    0 <= y < exts@.len() && (#[trigger] exts@[y]).id == index;
                                assert(exts@[y].id != index);
                            } else {
                                let y = choose|y: int|
                                    0 <= y < term.sums@.len() && (#[trigger] term.sums@[y]).id
                                        == index;
                                assert(term.sums@[y].id != index);
                            }
                        }
                    }
                    return Err(CanonError::UnknownIndex { index });
                },
            };
            proof {
                if valid {
                    assert(term@.factors[f as int] == factor@);
                    assert(factor_valid(computation@, exts@, term@.sums, factor@));
                    assert(has_id(exts@, index) || has_id(term.sums@, index));
                    assert forall|x: int|
                        0 <= x < term.sums.len() && #[trigger] term.sums@[x].id
                            == index implies id == sums@[x].id by {
                        assert(from_sums);
                        let y = choose|y: int|
                            0 <= y < term.sums.len() && (#[trigger] term.sums@[y]).id == index
                                && sums@[y].id == id;
                        if y != x {
                            assert(term.sums@[y].id != term.sums@[x].id);
                        }
                    }
                    assert forall|e: int|
                        0 <= e < exts.len() && #[trigger] exts@[e].id
                            == index implies id == renamed_exts@[e].id by {
                        if from_sums {
                            let y = choose|y: int|
                                0 <= y < term.sums.len() && (#[trigger] term.sums@[y]).id
                                    == index && sums@[y].id == id;
                            assert(term@.sums[y] == term.sums@[y]);
                            assert(!has_id(exts@, term@.sums[y].id));
                            assert(exts@[e].id == term@.sums[y].id);
                        } else {
                            let y = choose|y: int|
                                0 <= y < exts.len() && (#[trigger] exts@[y]).id == index
                                    && renamed_exts@[y].id == id;
                            if y != e {
                                assert(exts@[y].id != exts@[e].id);
                            }
                        }
                    }
                    if !has_id(sums@, id) {
                        assert(!from_sums);
                        let y = choose|y: int|
                            0 <= y < exts.len() && (#[trigger] exts@[y]).id == index
                                && renamed_exts@[y].id == id;
                        assert(renamed_exts@[y].id == id);
                    }
                }
            }
            indices.push(id);
            proof {
                if valid {
                    assert(indices@[k as int] == id);
                    assert forall|y: int, x: int|
                        #![trigger factor.indices@[y], term.sums@[x]]
                        0 <= y < k + 1 && 0 <= x < term.sums.len() && factor.indices@[y]
                            == term.sums@[x].id implies indices@[y] == sums@[x].id by {
                        if y == k {
                            assert(term.sums@[x].id == index);
                        }
                    }
                    assert forall|y: int, e: int|
                        #![trigger factor.indices@[y], exts@[e]]
                        0 <= y < k + 1 && 0 <= e < exts.len() && factor.indices@[y]
                            == exts@[e].id implies indices@[y] == renamed_exts@[e].id by {
                        if y == k {
                            assert(exts@[e].id == index);
                        }
                    }
                }
            }
            k = k + 1;
        }
        proof {
            if valid {
                assert(term@.factors[f as int] == factor@);
            }
        }
        let ghost before = factors@;
        factors.push(TensorRef { tensor: factor.tensor, indices });
        proof {
            if valid {
                assert forall|g: int| 0 <= g < f + 1 implies {
                    &&& (#[trigger] factors@[g]).tensor == term.factors@[g].tensor
                    &&& factors@[g].indices.len() == term.factors@[g].indices.len()
                    &&& forall|k: int|
                        0 <= k < factors@[g].indices.len() ==> has_id(
                            renamed_exts@,
                            #[trigger] factors@[g].indices@[k],
                        ) || has_id(sums@, factors@[g].indices@[k])
                    &&& forall|k: int, x: int|
                        #![trigger term.factors@[g].indices@[k], term.sums@[x]]
                        0 <= k < factors@[g].indices.len() && 0 <= x < term.sums.len()
                            && term.factors@[g].indices@[k] == term.sums@[x].id
                            ==> factors@[g].indices@[k] == sums@[x].id
                    &&& forall|k: int, y: int|
                        #![trigger term.factors@[g].indices@[k], exts@[y]]
                        0 <= k < factors@[g].indices.len() && 0 <= y < exts.len()
                            && term.factors@[g].indices@[k] == exts@[y].id
                            ==> factors@[g].indices@[k] == renamed_exts@[y].id
                } by {
                    if g < f {
                        assert(factors@[g] == before[g]);
                    } else {
                        assert(term.factors@[g] == factor);
                        assert forall|k: int, x: int|
                            #![trigger term.factors@[g].indices@[k], term.sums@[x]]
                            0 <= k < factors@[g].indices.len() && 0 <= x < term.sums.len()
                                && term.factors@[g].indices@[k] == term.sums@[x].id
                                implies factors@[g].indices@[k] == sums@[x].id by {
                            assert(factor.indices@[k] == term.factors@[g].indices@[k]);
                        }
                        assert forall|k: int, y: int|
                            #![trigger term.factors@[g].indices@[k], exts@[y]]
                            0 <= k < factors@[g].indices.len() && 0 <= y < exts.len()
                                && term.factors@[g].indices@[k] == exts@[y].id
                                implies factors@[g].indices@[k] == renamed_exts@[y].id by {
                            assert(factor.indices@[k] == term.factors@[g].indices@[k]);
                        }
                    }
                }
            }
        }
        f = f + 1;
    }
    let renamed = Term { sums, coeff: term.coeff.clone(), factors };
    proof {
        if valid {
            let t = renamed@;
            assert forall|a: int, b: int|
                0 <= a < t.sums.len() && 0 <= b < t.sums.len() && a != b implies (
                #[trigger] t.sums[a]).id != (#[trigger] t.sums[b]).id by {}
            assert forall|a: int, b: int|
                0 <= a < renamed_exts@.len() && 0 <= b < renamed_exts@.len() && a
                    != b implies (#[trigger] renamed_exts@[a]).id != (
                #[trigger] renamed_exts@[b]).id by {}
            assert forall|x: int| 0 <= x < t.sums.len() implies !has_id(
                renamed_exts@,
                (#[trigger] t.sums[x]).id,
            ) by {
                if has_id(renamed_exts@, t.sums[x].id) {
                    let y = choose|y: int|
                        0 <= y < renamed_exts@.len() && (#[trigger] renamed_exts@[y]).id
                            == t.sums[x].id;
                }
            }
            assert forall|g: int| 0 <= g < t.factors.len() implies factor_valid(
                computation@,
                renamed_exts@,
                t.sums,
                #[trigger] t.factors[g],
            ) by {
                assert(t.factors[g] == factors@[g]@);
                assert(term@.factors[g] == term.factors@[g]@);
                assert(factor_valid(computation@, exts@, term@.sums, term@.factors[g]));
            }
            assert forall|x: int| 0 <= x < t.sums.len() implies term_uses(
                t,
                (#[trigger] t.sums[x]).id,
            ) by {
                assert(term_uses(term@, term@.sums[x].id));
                let (g, k) = choose|g: int, k: int|
                    0 <= g < term@.factors.len() && 0 <= k < term@.factors[g].indices.len()
                        && #[trigger] term@.factors[g].indices[k] == term@.sums[x].id;
                assert(term@.factors[g] == term.factors@[g]@);
                assert(term.factors@[g].indices@[k] == term.sums@[x].id);
                assert(t.factors[g] == factors@[g]@);
                assert(t.factors[g].indices[k] == t.sums[x].id);
            }
            assert forall|x: int| 0 <= x < t.sums.len() implies computation@.ranges.contains(
                (#[trigger] t.sums[x]).range,
            ) by {
                assert(term@.sums[x].range == t.sums[x].range);
            }
            assert(term_context_valid(computation@, renamed_exts@, t));
            assert forall|g: int| 0 <= g < t.factors.len() implies (
            #[trigger] t.factors[g]).tensor == term@.factors[g].tensor
                && t.factors[g].indices.len() == term@.factors[g].indices.len() by {
                assert(t.factors[g] == factors@[g]@);
                assert(term@.factors[g] == term.factors@[g]@);
            }
            assert forall|g: int, k: int, x: int|
                #![trigger term@.factors[g].indices[k], term@.sums[x]]
                0 <= g < t.factors.len() && 0 <= k < term@.factors[g].indices.len() && 0 <= x
                    < term@.sums.len() && term@.factors[g].indices[k] == term@.sums[x].id
                    implies t.factors[g].indices[k].0 == exts@.len() + x by {
                assert(t.factors[g] == factors@[g]@);
                assert(term@.factors[g] == term.factors@[g]@);
                assert(term.factors@[g].indices@[k] == term.sums@[x].id);
            }
            assert forall|g: int, k: int, y: int|
                #![trigger term@.factors[g].indices[k], exts@[y]]
                0 <= g < t.factors.len() && 0 <= k < term@.factors[g].indices.len() && 0 <= y
                    < exts@.len() && term@.factors[g].indices[k] == exts@[y].id
                    implies t.factors[g].indices[k].0 == y by {
                assert(t.factors[g] == factors@[g]@);
                assert(term@.factors[g] == term.factors@[g]@);
                assert(term.factors@[g].indices@[k] == exts@[y].id);
            }
            assert(renames_to_positions(exts@, term@, t));
        }
    }
    Ok(renamed)
}

/// `renamed` holds, term by term, the positional renaming of `rhs`.
pub open spec fn renamed_rhs(exts: Seq<Index>, rhs: Seq<TermView>, renamed: Seq<TermView>) -> bool {
    &&& renamed.len() == rhs.len()
    &&& forall|k: int|
        0 <= k < rhs.len() ==> renames_to_positions(exts, rhs[k], #[trigger] renamed[k])
}

/// `out` is a canonical form of the definition `d`: the same base,
/// externals numbered by position, a valid body, and canonical terms of the
/// positionally renamed right-hand side.
pub open spec fn canonical_definition_of(
    c: ComputationView,
    d: TensorDefView,
    out: TensorDefView,
) -> bool {
    &&& out.base == d.base
    &&& positional_exts(d.exts, out.exts)
    &&& body_valid(c, out.exts, out.rhs)
    &&& exists|renamed: Seq<TermView>|
        #[trigger] renamed_rhs(d.exts, d.rhs, renamed) && canonical_terms(
            c,
            out.exts,
            renamed,
            out.rhs,
        ) && canonical_sum(c, out.exts, renamed, out.rhs)
}

/// `rhs` is the canonical sum of `terms`: their canonical forms with equal
/// bodies merged and zero terms dropped, ordered by summed indices and then
/// factors.
pub open spec fn canonical_sum(c: ComputationView, fixed: Seq<Index>, terms: Seq<TermView>, rhs: Seq<TermView>) -> bool {
    &&& exists|cs: Seq<Option<TermView>>|
        #[trigger] crate::canon::canonical_choices(c, fixed, terms, cs) && crate::canon::is_reordering(
            rhs,
            crate::canon::drop_zeros(crate::canon::merge(cs)),
        )
    &&& forall|a: int, b: int|
        0 <= a < b < rhs.len() ==> crate::canon::sums_and_factors_order(#[trigger] rhs[a], #[trigger] rhs[b]) <= 0
}

/// `out` is `c` with every definition replaced by a canonical form of it.
pub open spec fn canonical_form(c: ComputationView, out: ComputationView) -> bool {
    &&& out.ranges == c.ranges
    &&& out.tensors == c.tensors
    &&& out.definitions.len() == c.definitions.len()
    &&& forall|p: int|
        0 <= p < c.definitions.len() ==> canonical_definition_of(
            c,
            c.definitions[p],
            #[trigger] out.definitions[p],
        )
}

/// The factors of a term are in nondecreasing tensor order.
pub open spec fn factors_sorted(t: TermView) -> bool {
    forall|a: int, b: int|
        0 <= a < b < t.factors.len() ==> (#[trigger] t.factors[a]).tensor.0 <= (
        #[trigger] t.factors[b]).tensor.0
}

/// The shape every definition of a state has: positional externals, nonzero
/// terms with sorted factors, and no two terms with the same body.
pub open spec fn definition_canonical(d: TensorDefView) -> bool {
    &&& forall|k: int| 0 <= k < d.exts.len() ==> (#[trigger] d.exts[k]).id.0 == k
    &&& forall|t: int|
        0 <= t < d.rhs.len() ==> !crate::coeff::is_zero_value((#[trigger] d.rhs[t]).coeff)
            && factors_sorted(d.rhs[t])
    &&& forall|a: int, b: int|
        0 <= a < d.rhs.len() && 0 <= b < d.rhs.len() && a != b ==> !((#[trigger] d.rhs[a]).sums
            == (#[trigger] d.rhs[b]).sums && d.rhs[a].factors == d.rhs[b].factors)
}

/// A canonical form of a definition has the canonical shape.
pub proof fn lemma_canonical_shape(c: ComputationView, d: TensorDefView, out: TensorDefView)
    requires
        canonical_definition_of(c, d, out),
    ensures
        definition_canonical(out),
{
    let renamed = choose|renamed: Seq<TermView>|
        #[trigger] renamed_rhs(d.exts, d.rhs, renamed) && canonical_terms(c, out.exts, renamed, out.rhs);
    assert forall|t: int| 0 <= t < out.rhs.len() implies factors_sorted(#[trigger] out.rhs[t]) by {
        assert(crate::canon::arranges_some(c, out.exts, renamed, out.rhs[t]));
        let j = choose|j: int|
            0 <= j < renamed.len() && #[trigger] crate::canon::arranges_term(
                c,
                out.exts,
                renamed[j],
                out.rhs[t],
            );
        assert(crate::canon::arranges_term(c, out.exts, renamed[j], out.rhs[t]));
    }
}

/// The identities run out for the definition: its externals, or its
/// externals with the summed indices of a term, number more than the
/// identities, or too few identities lie outside its positional externals for
/// the summed indices of a term.
pub open spec fn definition_exhausts(d: TensorDefView) -> bool {
    ||| d.exts.len() > u32::MAX + 1
    ||| exists|t: int| 0 <= t < d.rhs.len() && d.exts.len() + (#[trigger] d.rhs[t]).sums.len() > u32::MAX + 1
    ||| exists|fixed: Seq<Index>, t: int|
        #[trigger] positional_exts(d.exts, fixed) && 0 <= t < d.rhs.len() && crate::canon::ids_short(
            fixed,
            (#[trigger] d.rhs[t]).sums.len() as int,
        )
}

/// Canonicalize a definition: number its externals by position and its
/// summed indices after them, then canonicalize its right-hand side.
#[verifier::loop_isolation(false)]
pub fn canonicalize_definition(computation: &Computation, definition: &TensorDef) -> (r: Result<
    TensorDef,
    CanonError,
>)
    ensures
        body_valid(computation@, definition@.exts, definition@.rhs) ==> match r {
            Ok(out) => canonical_definition_of(computation@, definition@, out@),
            Err(e) => e == CanonError::ExhaustedIndexIds,
        },
        r matches Err(CanonError::ExhaustedIndexIds) ==> definition_exhausts(definition@),
{
    let ghost valid = body_valid(computation@, definition@.exts, definition@.rhs);
    let mut exts: Vec<Index> = Vec::new();
    let mut position: usize = 0;
    while position < definition.exts.len()
        invariant
            position <= definition.exts.len(),
            exts@.len() == position,
            forall|k: int|
                0 <= k < position ==> (#[trigger] exts@[k]).id.0 == k && exts@[k].range
                    == definition.exts@[k].range,
        decreases definition.exts.len() - position,
    {
        let id = match index_id(position) {
            Ok(id) => id,
            Err(e) => {
                assert(definition@.exts.len() > u32::MAX + 1);
                return Err(e);
            },
        };
        exts.push(Index { id, range: definition.exts[position].range });
        position = position + 1;
    }
    assert(positional_exts(definition.exts@, exts@));
    let mut rhs: Vec<Term> = Vec::new();
    let mut t: usize = 0;
    while t < definition.rhs.len()
        invariant
            t <= definition.rhs.len(),
            positional_exts(definition.exts@, exts@),
            rhs@.len() == t,
            valid ==> forall|k: int|
                0 <= k < t ==> term_valid(computation@, exts@, #[trigger] rhs@[k]@)
                    && renames_to_positions(definition.exts@, definition@.rhs[k], rhs@[k]@),
            forall|k: int| 0 <= k < t ==> (#[trigger] rhs@[k])@.sums.len() == definition@.rhs[k].sums.len(),
        decreases definition.rhs.len() - t,
    {
        assert(definition@.rhs[t as int] == definition.rhs@[t as int]@);
        let renamed = rename_term_positions(computation, &definition.exts, &exts, &definition.rhs[t]);
        let renamed = match renamed {
            Ok(term) => term,
            Err(e) => {
                assert(e is ExhaustedIndexIds ==> definition@.exts.len() + definition@.rhs[t as int].sums.len() > u32::MAX + 1);
                return Err(e);
            },
        };
        rhs.push(renamed);
        t = t + 1;
    }
    let ghost sources = terms_view(rhs@);
    proof {
        if valid {
            assert forall|k: int| 0 <= k < rhs.len() implies term_context_valid(
                computation@,
                exts@,
                #[trigger] rhs@[k]@,
            ) by {
                assert(term_valid(computation@, exts@, rhs@[k]@));
            }
        }
    }
    let canonical = match canon_expr(computation, exts.as_slice(), rhs.as_slice()) {
        Ok(v) => v,
        Err(e) => {
            proof {
                if e is ExhaustedIndexIds {
                    let k = choose|k: int| 0 <= k < rhs.len() && crate::canon::ids_short(exts@, (#[trigger] rhs@[k]@).sums.len() as int);
                    assert(rhs@[k]@.sums.len() == definition@.rhs[k].sums.len());
                    assert(positional_exts(definition@.exts, exts@));
                }
            }
            return Err(e);
        },
    };
    let out = TensorDef { base: definition.base, exts, rhs: canonical };
    proof {
        if valid {
            assert(renamed_rhs(definition@.exts, definition@.rhs, sources)) by {
                assert forall|k: int| 0 <= k < definition@.rhs.len() implies renames_to_positions(
                    definition@.exts,
                    definition@.rhs[k],
                    #[trigger] sources[k],
                ) by {
                    assert(sources[k] == rhs@[k]@);
                }
            }
            assert(canonical_terms(computation@, out@.exts, sources, out@.rhs));
            assert forall|k: int| 0 <= k < out@.rhs.len() implies term_valid(
                computation@,
                out@.exts,
                #[trigger] out@.rhs[k],
            ) by {
                assert(crate::canon::arranges_some(computation@, out@.exts, sources, out@.rhs[k]));
                let j = choose|j: int|
                    0 <= j < sources.len() && #[trigger] crate::canon::arranges_term(
                        computation@,
                        out@.exts,
                        sources[j],
                        out@.rhs[k],
                    );
                assert(sources[j] == rhs@[j]@);
                assert(term_valid(computation@, exts@, rhs@[j]@));
                crate::canon::lemma_arrangement_valid(computation@, out@.exts, sources[j], out@.rhs[k]);
            }
            assert forall|a: int, b: int|
                0 <= a < out@.exts.len() && 0 <= b < out@.exts.len() && a != b implies (
                #[trigger] out@.exts[a]).id != (#[trigger] out@.exts[b]).id by {}
            assert forall|k: int| 0 <= k < out@.exts.len() implies computation@.ranges.contains(
                (#[trigger] out@.exts[k]).range,
            ) by {
                assert(definition@.exts[k].range == out@.exts[k].range);
            }
            assert(body_valid(computation@, out@.exts, out@.rhs));
        }
    }
    Ok(out)
}

/// Canonicalize every definition of a computation.
#[verifier::loop_isolation(false)]
pub fn canonicalize_definitions(computation: &Computation) -> (r: Result<Computation, CanonError>)
    ensures
        computation_valid(computation@) ==> match r {
            Ok(out) => canonical_form(computation@, out@),
            Err(e) => e == CanonError::ExhaustedIndexIds,
        },
        r matches Err(CanonError::ExhaustedIndexIds) ==> exists|p: int|
            0 <= p < computation@.definitions.len() && definition_exhausts(#[trigger] computation@.definitions[p]),
{
    let ghost valid = computation_valid(computation@);
    let mut definitions: Vec<TensorDef> = Vec::new();
    let mut p: usize = 0;
    while p < computation.definitions.len()
        invariant
            p <= computation.definitions.len(),
            definitions@.len() == p,
            valid ==> forall|q: int|
                0 <= q < p ==> canonical_definition_of(
                    computation@,
                    computation@.definitions[q],
                    #[trigger] definitions@[q]@,
                ),
        decreases computation.definitions.len() - p,
    {
        assert(computation@.definitions[p as int] == computation.definitions@[p as int]@);
        proof {
            if valid {
                assert(definition_valid(computation@, computation@.definitions[p as int]));
            }
        }
        let canonical = match canonicalize_definition(computation, &computation.definitions[p]) {
            Ok(v) => v,
            Err(e) => {
                assert(e == CanonError::ExhaustedIndexIds ==> definition_exhausts(computation@.definitions[p as int]));
                return Err(e);
            },
        };
        definitions.push(canonical);
        p = p + 1;
    }
    let mut out = computation.clone();
    out.definitions = definitions;
    proof {
        if valid {
            assert forall|q: int| 0 <= q < computation@.definitions.len() implies canonical_definition_of(
                computation@,
                computation@.definitions[q],
                #[trigger] out@.definitions[q],
            ) by {
                assert(out@.definitions[q] == definitions@[q]@);
            }
        }
    }
    Ok(out)
}

/// A valid term has one positional renaming.
proof fn lemma_renaming_unique(c: ComputationView, exts: Seq<Index>, term: TermView, t1: TermView, t2: TermView)
    requires
        term_context_valid(c, exts, term),
        renames_to_positions(exts, term, t1),
        renames_to_positions(exts, term, t2),
    ensures
        t1 == t2,
{
    assert(t1.sums =~= t2.sums) by {
        assert forall|x: int| 0 <= x < t1.sums.len() implies t1.sums[x] == t2.sums[x] by {
            assert(t1.sums[x].id.0 == t2.sums[x].id.0);
        }
    }
    assert(t1.factors =~= t2.factors) by {
        assert forall|g: int| 0 <= g < t1.factors.len() implies t1.factors[g] == t2.factors[g] by {
            assert(factor_valid(c, exts, term.sums, term.factors[g]));
            assert(t1.factors[g].indices =~= t2.factors[g].indices) by {
                assert forall|k: int| 0 <= k < t1.factors[g].indices.len() implies t1.factors[g].indices[k]
                    == t2.factors[g].indices[k] by {
                    let i = term.factors[g].indices[k];
                    if has_id(exts, i) {
                        let y = choose|y: int| 0 <= y < exts.len() && (#[trigger] exts[y]).id == i;
                        assert(t1.factors[g].indices[k].0 == y);
                        assert(t2.factors[g].indices[k].0 == y);
                    } else {
                        assert(has_id(term.sums, i));
                        let x = choose|x: int| 0 <= x < term.sums.len() && (#[trigger] term.sums[x]).id == i;
                        assert(t1.factors[g].indices[k].0 == exts.len() + x);
                        assert(t2.factors[g].indices[k].0 == exts.len() + x);
                    }
                }
            }
        }
    }
}

/// Canonicalization of a definition is deterministic: a definition with a
/// valid body has at most one canonical form.
pub proof fn lemma_canonical_definition_unique(
    c: ComputationView,
    d: TensorDefView,
    out1: TensorDefView,
    out2: TensorDefView,
)
    requires
        body_valid(c, d.exts, d.rhs),
        canonical_definition_of(c, d, out1),
        canonical_definition_of(c, d, out2),
    ensures
        out1 == out2,
{
    assert(out1.exts =~= out2.exts) by {
        assert forall|k: int| 0 <= k < out1.exts.len() implies out1.exts[k] == out2.exts[k] by {
            assert(out1.exts[k].id.0 == out2.exts[k].id.0);
        }
    }
    let renamed1 = choose|renamed: Seq<TermView>|
        #[trigger] renamed_rhs(d.exts, d.rhs, renamed) && canonical_terms(c, out1.exts, renamed, out1.rhs)
            && canonical_sum(c, out1.exts, renamed, out1.rhs);
    let renamed2 = choose|renamed: Seq<TermView>|
        #[trigger] renamed_rhs(d.exts, d.rhs, renamed) && canonical_terms(c, out2.exts, renamed, out2.rhs)
            && canonical_sum(c, out2.exts, renamed, out2.rhs);
    assert(renamed1 =~= renamed2) by {
        assert forall|k: int| 0 <= k < renamed1.len() implies renamed1[k] == renamed2[k] by {
            assert(term_valid(c, d.exts, d.rhs[k]));
            assert(renames_to_positions(d.exts, d.rhs[k], renamed1[k]));
            assert(renames_to_positions(d.exts, d.rhs[k], renamed2[k]));
            lemma_renaming_unique(c, d.exts, d.rhs[k], renamed1[k], renamed2[k]);
        }
    }
    let cs1 = choose|cs: Seq<Option<TermView>>|
        #[trigger] crate::canon::canonical_choices(c, out1.exts, renamed1, cs) && crate::canon::is_reordering(
            out1.rhs,
            crate::canon::drop_zeros(crate::canon::merge(cs)),
        );
    let cs2 = choose|cs: Seq<Option<TermView>>|
        #[trigger] crate::canon::canonical_choices(c, out1.exts, renamed1, cs) && crate::canon::is_reordering(
            out2.rhs,
            crate::canon::drop_zeros(crate::canon::merge(cs)),
        );
    crate::canon::lemma_canonical_sum_terms_unique(c, out1.exts, renamed1, cs1, cs2, out1.rhs, out2.rhs);
}

/// Canonicalization of a computation is deterministic: a valid computation
/// has at most one canonical form.
pub proof fn lemma_canonical_form_unique(c: ComputationView, out1: ComputationView, out2: ComputationView)
    requires
        computation_valid(c),
        canonical_form(c, out1),
        canonical_form(c, out2),
    ensures
        out1 == out2,
{
    assert(out1.definitions =~= out2.definitions) by {
        assert forall|p: int| 0 <= p < out1.definitions.len() implies out1.definitions[p] == out2.definitions[p] by {
            assert(definition_valid(c, c.definitions[p]));
            lemma_canonical_definition_unique(c, c.definitions[p], out1.definitions[p], out2.definitions[p]);
        }
    }
}

/// A canonical form of a valid computation is valid, keeps the validity of
/// protected outputs, and gives every definition the canonical shape.
pub proof fn lemma_canonical_form_valid(c: ComputationView, out: ComputationView, outputs: Seq<TensorId>)
    requires
        computation_valid(c),
        canonical_form(c, out),
    ensures
        computation_valid(out),
        outputs_valid(c, outputs) ==> outputs_valid(out, outputs),
        forall|p: int|
            0 <= p < out.definitions.len() ==> definition_canonical(#[trigger] out.definitions[p]),
        forall|t: TensorId| defines(out, t) <==> defines(c, t),
{
    assert forall|p: int| 0 <= p < out.definitions.len() implies definition_valid(
        out,
        #[trigger] out.definitions[p],
    ) by {
        assert(canonical_definition_of(c, c.definitions[p], out.definitions[p]));
        assert(definition_valid(c, c.definitions[p]));
        crate::valid::lemma_body_valid_context(c, out, out.definitions[p].exts, out.definitions[p].rhs);
    }
    assert forall|a: int, b: int|
        0 <= a < out.definitions.len() && 0 <= b < out.definitions.len() && a != b implies (
        #[trigger] out.definitions[a]).base != (#[trigger] out.definitions[b]).base by {
        assert(canonical_definition_of(c, c.definitions[a], out.definitions[a]));
        assert(canonical_definition_of(c, c.definitions[b], out.definitions[b]));
        assert(c.definitions[a].base != c.definitions[b].base);
    }
    assert forall|t: TensorId| defines(out, t) <==> defines(c, t) by {
        if defines(out, t) {
            let p = choose|p: int| 0 <= p < out.definitions.len() && (#[trigger] out.definitions[p]).base == t;
            assert(canonical_definition_of(c, c.definitions[p], out.definitions[p]));
            assert(c.definitions[p].base == t);
        }
        if defines(c, t) {
            let p = choose|p: int| 0 <= p < c.definitions.len() && (#[trigger] c.definitions[p]).base == t;
            assert(canonical_definition_of(c, c.definitions[p], out.definitions[p]));
            assert(out.definitions[p].base == t);
        }
    }
    assert forall|p: int| 0 <= p < out.definitions.len() implies definition_canonical(
        #[trigger] out.definitions[p],
    ) by {
        lemma_canonical_shape(c, c.definitions[p], out.definitions[p]);
    }
}

} // verus!
