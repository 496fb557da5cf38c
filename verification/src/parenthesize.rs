//! Parenthesization queries and policy choices.

use crate::action::{Action, QueryError, TermPosition};
use crate::coeff::{ratio_of_integer, ratio_product, CoeffView, Coefficient};
use crate::repr::{
    factors_view, terms_view, Index, IndexId, TensorDef, TensorDefView, TensorId, TensorRef, TensorRefView,
    Term, TermView,
};
use crate::state::intermediate::adds_intermediate;
use crate::state::{replaces_terms, State, StateError, StateView};
use crate::state::intermediate::contains_index_id;
use crate::valid::term_uses;
use vstd::prelude::*;

verus! {

// ----------------------------------------------------------------------------
// Splitting a term
// ----------------------------------------------------------------------------

/// The first `n` factors whose mask entry equals `keep`, in order.
pub open spec fn masked(factors: Seq<TensorRefView>, mask: Seq<bool>, keep: bool, n: nat) -> Seq<
    TensorRefView,
>
    decreases n,
{
    if n == 0 {
        Seq::empty()
    } else {
        let prev = masked(factors, mask, keep, (n - 1) as nat);
        if mask[n - 1] == keep {
            prev.push(factors[n - 1])
        } else {
            prev
        }
    }
}

/// The number of factors a mask covers.
pub open spec fn covered(factors: Seq<TensorRefView>, mask: Seq<bool>) -> nat {
    if factors.len() <= mask.len() {
        factors.len()
    } else {
        mask.len()
    }
}

/// Whether some factor uses the identity `id`.
pub open spec fn factors_use(factors: Seq<TensorRefView>, id: IndexId) -> bool {
    exists|f: int, k: int|
        0 <= f < factors.len() && 0 <= k < factors[f].indices.len() && #[trigger] factors[f].indices[k]
            == id
}

/// Split factors by a mask: those marked `true`, then those marked `false`;
/// factors past the end of the mask are dropped.
pub fn split_factors(factors: &[TensorRef], left: &[bool]) -> (r: (Vec<TensorRef>, Vec<TensorRef>))
    ensures
        factors_view(r.0@) == masked(factors_view(factors@), left@, true, covered(factors_view(factors@), left@)),
        factors_view(r.1@) == masked(factors_view(factors@), left@, false, covered(factors_view(factors@), left@)),
{
    let ghost fv = factors_view(factors@);
    let n = if factors.len() <= left.len() {
        factors.len()
    } else {
        left.len()
    };
    let mut left_factors: Vec<TensorRef> = Vec::new();
    let mut right_factors: Vec<TensorRef> = Vec::new();
    let mut k: usize = 0;
    while k < n
        invariant
            k <= n <= factors.len(),
            n <= left.len(),
            fv == factors_view(factors@),
            factors_view(left_factors@) =~= masked(fv, left@, true, k as nat),
            factors_view(right_factors@) =~= masked(fv, left@, false, k as nat),
        decreases n - k,
    {
        assert(fv[k as int] == factors@[k as int]@);
        let factor = factors[k].clone();
        if left[k] {
            left_factors.push(factor);
        } else {
            right_factors.push(factor);
        }
        k = k + 1;
    }
    (left_factors, right_factors)
}

/// The distinct index identities that the factors use.
#[verifier::loop_isolation(false)]
pub fn used_indices(factors: &[TensorRef]) -> (r: Vec<IndexId>)
    ensures
        r@.no_duplicates(),
        ids_ascending(r@),
        forall|id: IndexId| r@.contains(id) <==> factors_use(factors_view(factors@), id),
{
    let ghost fv = factors_view(factors@);
    let mut used: Vec<IndexId> = Vec::new();
    let mut f: usize = 0;
    while f < factors.len()
        invariant
            f <= factors.len(),
            fv == factors_view(factors@),
            ids_ascending(used@),
            forall|id: IndexId|
                used@.contains(id) <==> factors_use(fv.subrange(0, f as int), id),
        decreases factors.len() - f,
    {
        let factor = &factors[f];
        assert(fv[f as int] == factor@);
        let mut k: usize = 0;
        while k < factor.indices.len()
            invariant
                f < factors.len(),
                k <= factor.indices.len(),
                fv[f as int] == factor@,
                ids_ascending(used@),
                forall|id: IndexId|
                    used@.contains(id) <==> (factors_use(fv.subrange(0, f as int), id) || exists|j: int|
                        0 <= j < k && factor.indices@[j] == id),
            decreases factor.indices.len() - k,
        {
            let id = factor.indices[k];
            let ghost before = used@;
            insert_index_id(&mut used, id);
            proof {
                assert forall|x: IndexId| used@.contains(x) <==> (factors_use(fv.subrange(0, f as int), x)
                    || exists|j: int| 0 <= j < k + 1 && factor.indices@[j] == x) by {
                    assert(used@.contains(x) == (before.contains(x) || x == id));
                    assert(before.contains(x) <==> (factors_use(fv.subrange(0, f as int), x) || exists|j: int|
                        0 <= j < k && factor.indices@[j] == x));
                    if x == id {
                        assert(factor.indices@[k as int] == id);
                    }
                    if exists|j: int| 0 <= j < k + 1 && factor.indices@[j] == x {
                        let j = choose|j: int| 0 <= j < k + 1 && factor.indices@[j] == x;
                        if j < k {
                            assert(exists|j: int| 0 <= j < k && factor.indices@[j] == x);
                        }
                    }
                    if exists|j: int| 0 <= j < k && factor.indices@[j] == x {
                        let j = choose|j: int| 0 <= j < k && factor.indices@[j] == x;
                        assert(0 <= j < k + 1 && factor.indices@[j] == x);
                    }
                }
            }
            k = k + 1;
        }
        proof {
            assert forall|x: IndexId| used@.contains(x) <==> factors_use(fv.subrange(0, f + 1), x) by {
                let next = fv.subrange(0, f + 1);
                if factors_use(next, x) {
                    let (g, k) = choose|g: int, k: int|
                        0 <= g < next.len() && 0 <= k < next[g].indices.len() && #[trigger] next[g].indices[k] == x;
                    if g < f {
                        assert(fv.subrange(0, f as int)[g].indices[k] == x);
                    } else {
                        assert(factor.indices@[k] == x);
                    }
                }
                if factors_use(fv.subrange(0, f as int), x) {
                    let (g, k) = choose|g: int, k: int|
                        0 <= g < f && 0 <= k < fv.subrange(0, f as int)[g].indices.len() && #[trigger] fv.subrange(0, f as int)[g].indices[k] == x;
                    assert(next[g].indices[k] == x);
                }
                if exists|j: int| 0 <= j < factor.indices.len() && factor.indices@[j] == x {
                    let j = choose|j: int| 0 <= j < factor.indices.len() && factor.indices@[j] == x;
                    assert(next[f as int].indices[j] == x);
                }
            }
        }
        f = f + 1;
    }
    assert(fv.subrange(0, factors.len() as int) =~= fv);
    assert(used@.no_duplicates()) by {
        assert forall|a: int, b: int| 0 <= a < used@.len() && 0 <= b < used@.len() && a != b implies used@[a] != used@[b] by {
            if a < b {
                assert(used@[a].0 < used@[b].0);
            } else {
                assert(used@[b].0 < used@[a].0);
            }
        }
    }
    used
}

/// Identities in strictly increasing order.
pub open spec fn ids_ascending(ids: Seq<IndexId>) -> bool {
    forall|a: int, b: int| 0 <= a < b < ids.len() ==> ids[a].0 < ids[b].0
}

/// Add an identity to an ascending list unless it is there already.
#[verifier::spinoff_prover]
fn insert_index_id(set: &mut Vec<IndexId>, x: IndexId)
    requires
        ids_ascending(old(set)@),
    ensures
        ids_ascending(final(set)@),
        forall|y: IndexId| final(set)@.contains(y) <==> old(set)@.contains(y) || y == x,
{
    let mut at: usize = 0;
    while at < set.len() && set[at].0 < x.0
        invariant
            at <= set.len(),
            forall|j: int| 0 <= j < at ==> (#[trigger] set@[j]).0 < x.0,
        decreases set.len() - at,
    {
        at = at + 1;
    }
    if at < set.len() && set[at].0 == x.0 {
        assert(set@[at as int] == x);
        assert(set@.contains(x));
        return;
    }
    let ghost before = set@;
    set.insert(at, x);
    proof {
        assert(set@ =~= before.insert(at as int, x));
        assert forall|y: IndexId| set@.contains(y) <==> before.contains(y) || y == x by {
            if set@.contains(y) {
                let j = choose|j: int| 0 <= j < set@.len() && set@[j] == y;
                if j < at {
                    assert(before[j] == y);
                } else if j > at {
                    assert(before[j - 1] == y);
                }
            }
            if before.contains(y) {
                let j = choose|j: int| 0 <= j < before.len() && before[j] == y;
                if j < at {
                    assert(set@[j] == y);
                } else {
                    assert(set@[j + 1] == y);
                }
            }
            if y == x {
                assert(set@[at as int] == y);
            }
        }
        assert(before == old(set)@);
        assert(forall|y: IndexId| set@.contains(y) <==> old(set)@.contains(y) || y == x);
        assert(ids_ascending(set@)) by {
            assert forall|a: int, b: int| 0 <= a < b < set@.len() implies (#[trigger] set@[a]).0 < (
            #[trigger] set@[b]).0 by {
                if b < at {
                    assert(set@[a] == before[a] && set@[b] == before[b]);
                } else if b == at {
                    assert(set@[a] == before[a]);
                } else if a < at {
                    assert(set@[a] == before[a] && set@[b] == before[b - 1]);
                    assert(before[at as int].0 > x.0);
                    if b - 1 > at {
                        assert(before[at as int].0 < before[b - 1].0);
                    }
                } else if a == at {
                    assert(set@[b] == before[b - 1]);
                    assert(before[at as int].0 > x.0);
                    if b - 1 > at {
                        assert(before[at as int].0 < before[b - 1].0);
                    }
                } else {
                    assert(set@[a] == before[a - 1] && set@[b] == before[b - 1]);
                }
            }
        }
    }
}

/// The indices whose identity the factors use.
pub open spec fn uses_index(factors: Seq<TensorRefView>) -> spec_fn(Index) -> bool {
    |i: Index| factors_use(factors, i.id)
}

/// The indices used on the left side exactly when `in_left` and on the right
/// side exactly when `in_right`.
pub open spec fn on_sides(
    left: Seq<TensorRefView>,
    right: Seq<TensorRefView>,
    in_left: bool,
    in_right: bool,
) -> spec_fn(Index) -> bool {
    |i: Index| factors_use(left, i.id) == in_left && factors_use(right, i.id) == in_right
}

fn filter_on_sides(
    indices: &Vec<Index>,
    left_used: &Vec<IndexId>,
    right_used: &Vec<IndexId>,
    in_left: bool,
    in_right: bool,
    Ghost(left): Ghost<Seq<TensorRefView>>,
    Ghost(right): Ghost<Seq<TensorRefView>>,
) -> (r: Vec<Index>)
    requires
        forall|id: IndexId| left_used@.contains(id) <==> factors_use(left, id),
        forall|id: IndexId| right_used@.contains(id) <==> factors_use(right, id),
    ensures
        r@ == indices@.filter(on_sides(left, right, in_left, in_right)),
{
    let ghost p = on_sides(left, right, in_left, in_right);
    let mut r: Vec<Index> = Vec::new();
    let mut k: usize = 0;
    while k < indices.len()
        invariant
            k <= indices.len(),
            p == on_sides(left, right, in_left, in_right),
            forall|id: IndexId| left_used@.contains(id) <==> factors_use(left, id),
            forall|id: IndexId| right_used@.contains(id) <==> factors_use(right, id),
            r@ == indices@.subrange(0, k as int).filter(p),
        decreases indices.len() - k,
    {
        let index = indices[k];
        let l = contains_index_id(left_used, index.id);
        let rr = contains_index_id(right_used, index.id);
        proof {
            reveal(Seq::filter);
            let s1 = indices@.subrange(0, k + 1);
            assert(s1.drop_last() =~= indices@.subrange(0, k as int));
            assert(s1.last() == index);
        }
        if l == in_left && rr == in_right {
            r.push(index);
        }
        k = k + 1;
    }
    assert(indices@.subrange(0, indices.len() as int) =~= indices@);
    r
}

fn filter_used(indices: &Vec<Index>, used: &Vec<IndexId>, Ghost(factors): Ghost<Seq<TensorRefView>>) -> (r:
    Vec<Index>)
    requires
        forall|id: IndexId| used@.contains(id) <==> factors_use(factors, id),
    ensures
        r@ == indices@.filter(uses_index(factors)),
{
    let ghost p = uses_index(factors);
    let mut r: Vec<Index> = Vec::new();
    let mut k: usize = 0;
    while k < indices.len()
        invariant
            k <= indices.len(),
            p == uses_index(factors),
            forall|id: IndexId| used@.contains(id) <==> factors_use(factors, id),
            r@ == indices@.subrange(0, k as int).filter(p),
        decreases indices.len() - k,
    {
        let index = indices[k];
        let u = contains_index_id(used, index.id);
        proof {
            reveal(Seq::filter);
            let s1 = indices@.subrange(0, k + 1);
            assert(s1.drop_last() =~= indices@.subrange(0, k as int));
            assert(s1.last() == index);
        }
        if u {
            r.push(index);
        }
        k = k + 1;
    }
    assert(indices@.subrange(0, indices.len() as int) =~= indices@);
    r
}

/// The abstract form of a bipartition.
#[verifier::ext_equal]
pub struct BipartitionView {
    pub coeff: CoeffView,
    pub left: TermView,
    pub left_exts: Seq<Index>,
    pub right: TermView,
    pub right_exts: Seq<Index>,
    pub contracted: Seq<Index>,
}

/// A term split into two child products: summed indices used on one side
/// only move into that child, those used on both sides are contracted, and
/// each child's externals are the externals and contracted indices it uses.
pub open spec fn bipartition_of(exts: Seq<Index>, term: TermView, mask: Seq<bool>) -> BipartitionView {
    let n = covered(term.factors, mask);
    let l = masked(term.factors, mask, true, n);
    let r = masked(term.factors, mask, false, n);
    let contracted = term.sums.filter(on_sides(l, r, true, true));
    BipartitionView {
        coeff: term.coeff,
        left: TermView {
            sums: term.sums.filter(on_sides(l, r, true, false)),
            coeff: ratio_of_integer(1),
            factors: l,
        },
        left_exts: (exts + contracted).filter(uses_index(l)),
        right: TermView {
            sums: term.sums.filter(on_sides(l, r, false, true)),
            coeff: ratio_of_integer(1),
            factors: r,
        },
        right_exts: (exts + contracted).filter(uses_index(r)),
        contracted,
    }
}

/// A term split into a coefficient, two child terms with their externals,
/// and the indices contracted between the children.
#[derive(Debug, PartialEq, Eq)]
pub struct TermBipartition {
    pub coeff: Coefficient,
    pub left: Term,
    pub left_exts: Vec<Index>,
    pub right: Term,
    pub right_exts: Vec<Index>,
    pub contracted: Vec<Index>,
}

impl View for TermBipartition {
    type V = BipartitionView;

    open spec fn view(&self) -> BipartitionView {
        BipartitionView {
            coeff: self.coeff@,
            left: self.left@,
            left_exts: self.left_exts@,
            right: self.right@,
            right_exts: self.right_exts@,
            contracted: self.contracted@,
        }
    }
}

impl Clone for TermBipartition {
    fn clone(&self) -> (r: Self)
        ensures
            r@ == self@,
    {
        let left_exts = self.left_exts.clone();
        let right_exts = self.right_exts.clone();
        let contracted = self.contracted.clone();
        assert(left_exts@ =~= self.left_exts@);
        assert(right_exts@ =~= self.right_exts@);
        assert(contracted@ =~= self.contracted@);
        TermBipartition {
            coeff: self.coeff.clone(),
            left: self.left.clone(),
            left_exts,
            right: self.right.clone(),
            right_exts,
            contracted,
        }
    }
}

/// Split a term by a mask over its factors. Every summed index of the term
/// must be used by some factor.
pub fn bipartition_term(exts: &[Index], term: &Term, left: &[bool]) -> (r: TermBipartition)
    requires
        left.len() == term.factors.len(),
        forall|k: int| 0 <= k < term.sums.len() ==> term_uses(term@, (#[trigger] term@.sums[k]).id),
    ensures
        r@ == bipartition_of(exts@, term@, left@),
{
    let (left_factors, right_factors) = split_factors(term.factors.as_slice(), left);
    let ghost l = factors_view(left_factors@);
    let ghost r = factors_view(right_factors@);
    let left_used = used_indices(left_factors.as_slice());
    let right_used = used_indices(right_factors.as_slice());
    let left_sums = filter_on_sides(&term.sums, &left_used, &right_used, true, false, Ghost(l), Ghost(r));
    let right_sums = filter_on_sides(&term.sums, &left_used, &right_used, false, true, Ghost(l), Ghost(r));
    let contracted = filter_on_sides(&term.sums, &left_used, &right_used, true, true, Ghost(l), Ghost(r));
    let mut scope: Vec<Index> = Vec::new();
    let mut k: usize = 0;
    while k < exts.len()
        invariant
            k <= exts.len(),
            scope@ =~= exts@.subrange(0, k as int),
        decreases exts.len() - k,
    {
        scope.push(exts[k]);
        k = k + 1;
    }
    let mut j: usize = 0;
    while j < contracted.len()
        invariant
            j <= contracted.len(),
            scope@ =~= exts@ + contracted@.subrange(0, j as int),
        decreases contracted.len() - j,
    {
        scope.push(contracted[j]);
        j = j + 1;
    }
    assert(scope@ =~= exts@ + contracted@);
    let left_exts = filter_used(&scope, &left_used, Ghost(l));
    let right_exts = filter_used(&scope, &right_used, Ghost(r));
    let result = TermBipartition {
        coeff: term.coeff.clone(),
        left: Term { sums: left_sums, coeff: Coefficient::from_integer(1), factors: left_factors },
        left_exts,
        right: Term { sums: right_sums, coeff: Coefficient::from_integer(1), factors: right_factors },
        right_exts,
        contracted,
    };
    assert(result@ =~= bipartition_of(exts@, term@, left@));
    result
}

// ----------------------------------------------------------------------------
// Policy choices
// ----------------------------------------------------------------------------

/// An invalid policy choice for a parenthesization space.
#[derive(Clone, Copy, Debug, PartialEq, Eq, Structural)]
pub enum ParenthesizeChoiceError {
    NoParenthesization { factor_count: usize },
    WrongPartitionLength { expected: usize, got: usize },
    EmptyPartitionSide,
}

/// The verdict on a partition mask for a term with `factor_count` factors.
pub open spec fn choice_verdict(factor_count: usize, left: Seq<bool>) -> Result<
    (),
    ParenthesizeChoiceError,
> {
    if factor_count <= 2 {
        Err(ParenthesizeChoiceError::NoParenthesization { factor_count })
    } else if left.len() != factor_count {
        Err(
            ParenthesizeChoiceError::WrongPartitionLength {
                expected: factor_count,
                got: left.len() as usize,
            },
        )
    } else if (forall|k: int| 0 <= k < left.len() ==> #[trigger] left[k]) || (forall|k: int|
        0 <= k < left.len() ==> !#[trigger] left[k]) {
        Err(ParenthesizeChoiceError::EmptyPartitionSide)
    } else {
        Ok(())
    }
}

/// Check that a mask splits more than two factors into two nonempty sides.
pub fn validate_choice(factor_count: usize, left: &[bool]) -> (r: Result<(), ParenthesizeChoiceError>)
    ensures
        r == choice_verdict(factor_count, left@),
{
    if factor_count <= 2 {
        return Err(ParenthesizeChoiceError::NoParenthesization { factor_count });
    }
    if left.len() != factor_count {
        return Err(
            ParenthesizeChoiceError::WrongPartitionLength { expected: factor_count, got: left.len() },
        );
    }
    let mut any_true = false;
    let mut any_false = false;
    let mut k: usize = 0;
    while k < left.len()
        invariant
            k <= left.len(),
            any_true <==> exists|j: int| 0 <= j < k && left@[j],
            any_false <==> exists|j: int| 0 <= j < k && !left@[j],
        decreases left.len() - k,
    {
        if left[k] {
            any_true = true;
        } else {
            any_false = true;
        }
        k = k + 1;
    }
    if !any_true || !any_false {
        return Err(ParenthesizeChoiceError::EmptyPartitionSide);
    }
    Ok(())
}

/// The orientation of a mask that puts factor zero on the left.
pub open spec fn normalized(mask: Seq<bool>) -> Seq<bool> {
    if mask.len() > 0 && !mask[0] {
        mask.map_values(|b: bool| !b)
    } else {
        mask
    }
}

/// Complementary masks describe the same partition: they pass or fail the
/// same checks, and once normalized they are the same mask, so selecting
/// either gives the same action.
pub proof fn lemma_complementary_masks(factor_count: usize, mask: Seq<bool>)
    ensures
        choice_verdict(factor_count, mask.map_values(|b: bool| !b)) == choice_verdict(factor_count, mask),
        mask.len() > 0 ==> normalized(mask.map_values(|b: bool| !b)) == normalized(mask),
{
    let flipped = mask.map_values(|b: bool| !b);
    if forall|k: int| 0 <= k < flipped.len() ==> #[trigger] flipped[k] {
        assert forall|k: int| 0 <= k < mask.len() implies !#[trigger] mask[k] by {
            assert(flipped[k]);
        }
    }
    if forall|k: int| 0 <= k < mask.len() ==> !#[trigger] mask[k] {
        assert forall|k: int| 0 <= k < flipped.len() implies #[trigger] flipped[k] by {
            assert(!mask[k]);
        }
    }
    if forall|k: int| 0 <= k < flipped.len() ==> !#[trigger] flipped[k] {
        assert forall|k: int| 0 <= k < mask.len() implies #[trigger] mask[k] by {
            assert(!flipped[k]);
        }
    }
    if forall|k: int| 0 <= k < mask.len() ==> #[trigger] mask[k] {
        assert forall|k: int| 0 <= k < flipped.len() implies !#[trigger] flipped[k] by {
            assert(mask[k]);
        }
    }
    if mask.len() > 0 {
        assert(flipped.map_values(|b: bool| !b) =~= mask);
    }
}

/// The abstract form of a parenthesization space.
pub struct ParenthesizeSpaceView {
    pub target: TermPosition,
    pub base: TensorId,
    pub exts: Seq<Index>,
    pub term: TermView,
}

/// The non-symbolic policy interface for one parenthesization query.
#[derive(Debug, PartialEq, Eq)]
pub struct ParenthesizeSpace {
    target: TermPosition,
    base: TensorId,
    exts: Vec<Index>,
    term: Term,
}

impl View for ParenthesizeSpace {
    type V = ParenthesizeSpaceView;

    closed spec fn view(&self) -> ParenthesizeSpaceView {
        ParenthesizeSpaceView {
            target: self.target,
            base: self.base,
            exts: self.exts@,
            term: self.term@,
        }
    }
}

/// The abstract form of a parenthesization action.
pub struct ParenthesizeActionView {
    pub target: TermPosition,
    pub base: TensorId,
    pub left: Seq<bool>,
    pub bipartition: BipartitionView,
}

/// One validated parenthesization choice.
#[derive(Debug, PartialEq, Eq)]
pub struct ParenthesizeAction {
    target: TermPosition,
    base: TensorId,
    left: Vec<bool>,
    bipartition: TermBipartition,
}

impl View for ParenthesizeAction {
    type V = ParenthesizeActionView;

    closed spec fn view(&self) -> ParenthesizeActionView {
        ParenthesizeActionView {
            target: self.target,
            base: self.base,
            left: self.left@,
            bipartition: self.bipartition@,
        }
    }
}

impl ParenthesizeAction {
    pub fn target(&self) -> (r: TermPosition)
        ensures
            r == self@.target,
    {
        self.target
    }

    /// The normalized partition mask: factor zero is always on the left.
    pub fn left(&self) -> (r: &[bool])
        ensures
            r@ == self@.left,
    {
        self.left.as_slice()
    }
}

impl Clone for ParenthesizeAction {
    fn clone(&self) -> (r: Self)
        ensures
            r@ == self@,
    {
        let left = self.left.clone();
        assert(left@ =~= self.left@);
        ParenthesizeAction {
            target: self.target,
            base: self.base,
            left,
            bipartition: self.bipartition.clone(),
        }
    }
}

impl ParenthesizeSpace {
    #[verifier::type_invariant]
    spec fn sums_used(self) -> bool {
        forall|k: int| 0 <= k < self.term@.sums.len() ==> term_uses(self.term@, (#[trigger] self.term@.sums[k]).id)
    }

    pub fn target(&self) -> (r: TermPosition)
        ensures
            r == self@.target,
    {
        self.target
    }

    /// An owned semantic description of the parenthesization problem.
    pub fn snapshot(&self) -> (r: (Vec<Index>, Term))
        ensures
            r.0@ == self@.exts,
            r.1@ == self@.term,
    {
        let exts = self.exts.clone();
        assert(exts@ =~= self.exts@);
        (exts, self.term.clone())
    }

    pub fn factor_count(&self) -> (r: usize)
        ensures
            r == self@.term.factors.len(),
    {
        self.term.factors.len()
    }

    /// Select an unordered binary partition of the target's factors.
    ///
    /// `left[i]` indicates that factor occurrence `i` belongs to the left
    /// child. Complementary masks describe the same partition and are
    /// normalized to the orientation containing factor zero on the left.
    pub fn select(&self, left: &[bool]) -> (r: Result<Action, ParenthesizeChoiceError>)
        ensures
            choice_verdict(self@.term.factors.len() as usize, left@) matches Err(e) ==> r == Err::<
                Action,
                ParenthesizeChoiceError,
            >(e),
            choice_verdict(self@.term.factors.len() as usize, left@) is Ok ==> (r matches Ok(
                Action::Parenthesize(a),
            ) && a@
                == ParenthesizeActionView {
                target: self@.target,
                base: self@.base,
                left: normalized(left@),
                bipartition: bipartition_of(self@.exts, self@.term, normalized(left@)),
            }),
    {
        proof {
            use_type_invariant(self);
        }
        validate_choice(self.factor_count(), left)?;
        let mut mask: Vec<bool> = Vec::new();
        let flip = !left[0];
        let mut k: usize = 0;
        while k < left.len()
            invariant
                k <= left.len(),
                left.len() > 0,
                flip == !left@[0],
                mask@ =~= normalized(left@).subrange(0, k as int),
            decreases left.len() - k,
        {
            mask.push(if flip {
                !left[k]
            } else {
                left[k]
            });
            k = k + 1;
        }
        assert(mask@ =~= normalized(left@));
        let bipartition = bipartition_term(self.exts.as_slice(), &self.term, mask.as_slice());
        Ok(Action::Parenthesize(ParenthesizeAction { target: self.target, base: self.base, left: mask, bipartition }))
    }
}

impl Clone for ParenthesizeSpace {
    fn clone(&self) -> (r: Self)
        ensures
            r@ == self@,
    {
        proof {
            use_type_invariant(self);
        }
        let exts = self.exts.clone();
        assert(exts@ =~= self.exts@);
        ParenthesizeSpace { target: self.target, base: self.base, exts, term: self.term.clone() }
    }
}

// ----------------------------------------------------------------------------
// Queries and transitions
// ----------------------------------------------------------------------------

/// What a parenthesization query answers: the space of the target term, or
/// the first of its positions that does not exist.
pub open spec fn parenthesize_answer(s: StateView, target: TermPosition) -> Result<
    ParenthesizeSpaceView,
    QueryError,
> {
    let defs = s.computation.definitions;
    if target.definition.0 >= defs.len() {
        Err(QueryError::DefinitionOutOfBounds { position: target.definition })
    } else if target.term >= defs[target.definition.0 as int].rhs.len() {
        Err(QueryError::TermOutOfBounds { position: target })
    } else {
        let d = defs[target.definition.0 as int];
        Ok(ParenthesizeSpaceView { target, base: d.base, exts: d.exts, term: d.rhs[target.term as int] })
    }
}

/// The parenthesization space of one term of a state.
pub fn query(state: &State, target: TermPosition) -> (r: Result<ParenthesizeSpace, QueryError>)
    ensures
        r matches Ok(space) ==> parenthesize_answer(state@, target) == Ok::<ParenthesizeSpaceView, QueryError>(
            space@,
        ),
        r matches Err(e) ==> parenthesize_answer(state@, target) == Err::<ParenthesizeSpaceView, QueryError>(e),
{
    let computation = state.computation();
    if target.definition.0 >= computation.definitions.len() {
        return Err(QueryError::DefinitionOutOfBounds { position: target.definition });
    }
    let definition = &computation.definitions[target.definition.0];
    assert(state@.computation.definitions[target.definition.0 as int] == definition@);
    if target.term >= definition.rhs.len() {
        return Err(QueryError::TermOutOfBounds { position: target });
    }
    let term = definition.rhs[target.term].clone();
    assert(definition@.rhs[target.term as int] == term@);
    proof {
        assert(crate::valid::definition_valid(state@.computation, definition@));
        assert(crate::valid::term_valid(state@.computation, definition@.exts, term@));
    }
    let exts = definition.exts.clone();
    assert(exts@ =~= definition@.exts);
    Ok(ParenthesizeSpace { target, base: definition.base, exts, term })
}

/// The candidate definition for the left child.
pub open spec fn left_candidate(a: ParenthesizeActionView) -> TensorDefView {
    TensorDefView { base: a.base, exts: a.bipartition.left_exts, rhs: seq![a.bipartition.left] }
}

/// The candidate definition for the right child.
pub open spec fn right_candidate(a: ParenthesizeActionView) -> TensorDefView {
    TensorDefView { base: a.base, exts: a.bipartition.right_exts, rhs: seq![a.bipartition.right] }
}

/// The contraction of the two children that replaces the target term.
pub open spec fn replacement_term(
    a: ParenthesizeActionView,
    left_coeff: CoeffView,
    left_ref: TensorRefView,
    right_coeff: CoeffView,
    right_ref: TensorRefView,
) -> TermView {
    TermView {
        sums: a.bipartition.contracted,
        coeff: ratio_product(ratio_product(a.bipartition.coeff, left_coeff), right_coeff),
        factors: seq![left_ref, right_ref],
    }
}

/// `after` is `before` with the left and then the right child added as
/// intermediates and the target term replaced by their contraction.
pub open spec fn applies_parenthesization(
    before: StateView,
    a: ParenthesizeActionView,
    after: StateView,
) -> bool {
    exists|
        s1: StateView,
        left_coeff: CoeffView,
        left_ref: TensorRefView,
        s2: StateView,
        right_coeff: CoeffView,
        right_ref: TensorRefView,
    |
        #![trigger adds_intermediate(before, left_candidate(a), s1, left_coeff, left_ref), adds_intermediate(s1, right_candidate(a), s2, right_coeff, right_ref)]
        adds_intermediate(before, left_candidate(a), s1, left_coeff, left_ref) && adds_intermediate(
            s1,
            right_candidate(a),
            s2,
            right_coeff,
            right_ref,
        ) && replaces_terms(
            s2,
            a.target.definition.0 as int,
            seq![a.target.term],
            seq![replacement_term(a, left_coeff, left_ref, right_coeff, right_ref)],
            after,
        )
}

/// Why applying a parenthesization fails with `e`: adding the left child
/// fails, or adding the right child after it, or replacing the target term
/// by their contraction after both.
pub open spec fn parenthesize_failure(before: StateView, a: ParenthesizeActionView, e: StateError) -> bool {
    ||| crate::state::intermediate::intermediate_failure(before, left_candidate(a), e)
    ||| exists|s1: StateView, left_coeff: CoeffView, left_ref: TensorRefView|
        #[trigger] adds_intermediate(before, left_candidate(a), s1, left_coeff, left_ref)
            && crate::state::intermediate::intermediate_failure(s1, right_candidate(a), e)
    ||| exists|
        s1: StateView,
        left_coeff: CoeffView,
        left_ref: TensorRefView,
        s2: StateView,
        right_coeff: CoeffView,
        right_ref: TensorRefView,
    |
        #![trigger adds_intermediate(before, left_candidate(a), s1, left_coeff, left_ref), adds_intermediate(s1, right_candidate(a), s2, right_coeff, right_ref)]
        adds_intermediate(before, left_candidate(a), s1, left_coeff, left_ref) && adds_intermediate(
            s1,
            right_candidate(a),
            s2,
            right_coeff,
            right_ref,
        ) && crate::state::replace_failure(
            s2,
            a.target.definition.0 as int,
            seq![a.target.term],
            seq![replacement_term(a, left_coeff, left_ref, right_coeff, right_ref)],
            e,
        )
}

/// Apply a parenthesization to a state.
pub fn apply(state: &mut State, action: ParenthesizeAction) -> (r: Result<(), StateError>)
    ensures
        r is Ok ==> applies_parenthesization(old(state)@, action@, final(state)@),
        r matches Err(e) ==> parenthesize_failure(old(state)@, action@, e),
        r is Ok ==> crate::state::state_valid(final(state)@.computation, final(state)@.protected_outputs),
        final(state)@.protected_outputs == old(state)@.protected_outputs,
{
    let ghost a = action@;
    let ghost s0 = state@;
    let ParenthesizeAction { target, base, left: _, bipartition } = action;
    let TermBipartition { coeff, left, left_exts, right, right_exts, contracted } = bipartition;
    let mut left_rhs: Vec<Term> = Vec::new();
    left_rhs.push(left);
    let left_def = TensorDef { base, exts: left_exts, rhs: left_rhs };
    assert(left_def@ =~= left_candidate(a));
    let mut right_rhs: Vec<Term> = Vec::new();
    right_rhs.push(right);
    let right_def = TensorDef { base, exts: right_exts, rhs: right_rhs };
    assert(right_def@ =~= right_candidate(a));
    let (left_coeff, left_ref) = match state.add_intermediate(left_def) {
        Ok(v) => v,
        Err(e) => {
            return Err(e);
        },
    };
    let ghost s1 = state@;
    let (right_coeff, right_ref) = match state.add_intermediate(right_def) {
        Ok(v) => v,
        Err(e) => {
            assert(adds_intermediate(s0, left_candidate(a), s1, left_coeff@, left_ref@));
            return Err(e);
        },
    };
    let ghost s2 = state@;
    let product = coeff.mul(&left_coeff);
    let replacement_coeff = product.mul(&right_coeff);
    let mut factors: Vec<TensorRef> = Vec::new();
    let ghost lr = left_ref@;
    let ghost rr = right_ref@;
    factors.push(left_ref);
    factors.push(right_ref);
    let replacement = Term { sums: contracted, coeff: replacement_coeff, factors };
    assert(replacement@ =~= replacement_term(a, left_coeff@, lr, right_coeff@, rr));
    let mut replacements: Vec<Term> = Vec::new();
    replacements.push(replacement);
    let mut removed: Vec<usize> = Vec::new();
    removed.push(target.term);
    proof {
        assert(removed@ =~= seq![a.target.term]);
        assert(terms_view(replacements@) =~= seq![replacement_term(a, left_coeff@, lr, right_coeff@, rr)]);
        assert(adds_intermediate(s0, left_candidate(a), s1, left_coeff@, lr));
        assert(adds_intermediate(s1, right_candidate(a), s2, right_coeff@, rr));
    }
    match state.replace_terms(target.definition.0, removed.as_slice(), replacements) {
        Ok(()) => {},
        Err(e) => {
            return Err(e);
        },
    }
    proof {
        assert(removed@ =~= seq![a.target.term]);
        assert(terms_view(replacements@) =~= seq![replacement_term(a, left_coeff@, lr, right_coeff@, rr)]);
        assert(adds_intermediate(s0, left_candidate(a), s1, left_coeff@, lr));
        assert(adds_intermediate(s1, right_candidate(a), s2, right_coeff@, rr));
    }
    Ok(())
}

} // verus!
