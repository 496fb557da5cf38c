//! Symbolic tensor representation.

use crate::coeff::{CoeffView, Coefficient};
use vstd::prelude::*;

verus! {

/// The integer identity of an index range.
#[derive(Clone, Copy, Debug, PartialEq, Eq, Hash, PartialOrd, Ord, Structural)]
pub struct RangeId(pub u32);

/// The integer identity of an index within its local scope.
#[derive(Clone, Copy, Debug, PartialEq, Eq, Hash, PartialOrd, Ord, Structural)]
pub struct IndexId(pub u32);

/// The integer identity of a tensor.
#[derive(Clone, Copy, Debug, PartialEq, Eq, Hash, PartialOrd, Ord, Structural)]
pub struct TensorId(pub u32);

/// The scalar action associated with a tensor-index permutation.
#[derive(Clone, Copy, Debug, PartialEq, Eq, Hash, Structural)]
pub enum SymmetryAction {
    Identity,
    Negate,
}

/// One generator of a tensor's permutation symmetry.
#[derive(Debug, PartialEq, Eq, Hash)]
pub struct SymmetryGenerator {
    pub perm: Vec<usize>,
    pub action: SymmetryAction,
}

/// Rank and symmetry metadata for one tensor.
#[derive(Debug, PartialEq, Eq)]
pub struct TensorInfo {
    pub rank: usize,
    pub symmetry: Vec<SymmetryGenerator>,
}

/// An index declaration in a definition or term.
#[derive(Clone, Copy, Debug, PartialEq, Eq, Hash, PartialOrd, Ord, Structural)]
pub struct Index {
    pub id: IndexId,
    pub range: RangeId,
}

/// One indexed occurrence of a tensor.
#[derive(Debug, PartialEq, Eq, Hash)]
pub struct TensorRef {
    pub tensor: TensorId,
    pub indices: Vec<IndexId>,
}

/// One explicitly summed product term.
#[derive(Debug, PartialEq, Eq)]
pub struct Term {
    /// Indices bound by this term. Their identities are local to the term.
    pub sums: Vec<Index>,
    pub coeff: Coefficient,
    pub factors: Vec<TensorRef>,
}

/// A tensor definition with definition-local external indices.
#[derive(Debug, PartialEq, Eq)]
pub struct TensorDef {
    pub base: TensorId,
    pub exts: Vec<Index>,
    pub rhs: Vec<Term>,
}

/// An unvalidated symbolic tensor computation.
///
/// `ranges` lists the declared ranges and `tensors` the declared tensors with
/// their metadata. Where a tensor is listed more than once, its first entry is
/// the one that counts.
#[derive(Debug, PartialEq, Eq)]
pub struct Computation {
    pub ranges: Vec<RangeId>,
    pub tensors: Vec<(TensorId, TensorInfo)>,
    pub definitions: Vec<TensorDef>,
}

// ----------------------------------------------------------------------------
// Abstract views
// ----------------------------------------------------------------------------

#[verifier::ext_equal]
pub struct GeneratorView {
    pub perm: Seq<usize>,
    pub action: SymmetryAction,
}

#[verifier::ext_equal]
pub struct TensorInfoView {
    pub rank: usize,
    pub symmetry: Seq<GeneratorView>,
}

#[verifier::ext_equal]
pub struct TensorRefView {
    pub tensor: TensorId,
    pub indices: Seq<IndexId>,
}

#[verifier::ext_equal]
pub struct TermView {
    pub sums: Seq<Index>,
    pub coeff: CoeffView,
    pub factors: Seq<TensorRefView>,
}

#[verifier::ext_equal]
pub struct TensorDefView {
    pub base: TensorId,
    pub exts: Seq<Index>,
    pub rhs: Seq<TermView>,
}

#[verifier::ext_equal]
pub struct ComputationView {
    pub ranges: Seq<RangeId>,
    pub tensors: Seq<(TensorId, TensorInfoView)>,
    pub definitions: Seq<TensorDefView>,
}

impl View for SymmetryGenerator {
    type V = GeneratorView;

    open spec fn view(&self) -> GeneratorView {
        GeneratorView { perm: self.perm@, action: self.action }
    }
}

impl View for TensorInfo {
    type V = TensorInfoView;

    open spec fn view(&self) -> TensorInfoView {
        TensorInfoView {
            rank: self.rank,
            symmetry: self.symmetry@.map_values(|g: SymmetryGenerator| g@),
        }
    }
}

impl View for TensorRef {
    type V = TensorRefView;

    open spec fn view(&self) -> TensorRefView {
        TensorRefView { tensor: self.tensor, indices: self.indices@ }
    }
}

/// The abstract form of a sequence of factors.
pub open spec fn factors_view(factors: Seq<TensorRef>) -> Seq<TensorRefView> {
    factors.map_values(|f: TensorRef| f@)
}

impl View for Term {
    type V = TermView;

    open spec fn view(&self) -> TermView {
        TermView { sums: self.sums@, coeff: self.coeff@, factors: factors_view(self.factors@) }
    }
}

/// The abstract form of a sequence of terms.
pub open spec fn terms_view(terms: Seq<Term>) -> Seq<TermView> {
    terms.map_values(|t: Term| t@)
}

impl View for TensorDef {
    type V = TensorDefView;

    open spec fn view(&self) -> TensorDefView {
        TensorDefView { base: self.base, exts: self.exts@, rhs: terms_view(self.rhs@) }
    }
}

/// The abstract form of a sequence of definitions.
pub open spec fn definitions_view(definitions: Seq<TensorDef>) -> Seq<TensorDefView> {
    definitions.map_values(|d: TensorDef| d@)
}

/// The abstract form of a tensor table.
pub open spec fn tensors_view(tensors: Seq<(TensorId, TensorInfo)>) -> Seq<
    (TensorId, TensorInfoView),
> {
    tensors.map_values(|e: (TensorId, TensorInfo)| (e.0, e.1@))
}

impl View for Computation {
    type V = ComputationView;

    open spec fn view(&self) -> ComputationView {
        ComputationView {
            ranges: self.ranges@,
            tensors: tensors_view(self.tensors@),
            definitions: definitions_view(self.definitions@),
        }
    }
}

// ----------------------------------------------------------------------------
// Copies
// ----------------------------------------------------------------------------

impl Clone for SymmetryGenerator {
    fn clone(&self) -> (r: Self)
        ensures
            r@ == self@,
    {
        let perm = self.perm.clone();
        assert(perm@ =~= self.perm@);
        SymmetryGenerator { perm, action: self.action }
    }
}

impl Clone for TensorInfo {
    fn clone(&self) -> (r: Self)
        ensures
            r@ == self@,
    {
        let symmetry = self.symmetry.clone();
        assert(symmetry@.map_values(|g: SymmetryGenerator| g@) =~= self.symmetry@.map_values(
            |g: SymmetryGenerator| g@,
        ));
        TensorInfo { rank: self.rank, symmetry }
    }
}

impl Clone for TensorRef {
    fn clone(&self) -> (r: Self)
        ensures
            r@ == self@,
    {
        let indices = self.indices.clone();
        assert(indices@ =~= self.indices@);
        TensorRef { tensor: self.tensor, indices }
    }
}

impl Clone for Term {
    fn clone(&self) -> (r: Self)
        ensures
            r@ == self@,
    {
        let sums = self.sums.clone();
        let factors = self.factors.clone();
        assert(sums@ =~= self.sums@);
        assert(factors_view(factors@) =~= factors_view(self.factors@));
        Term { sums, coeff: self.coeff.clone(), factors }
    }
}

impl Clone for TensorDef {
    fn clone(&self) -> (r: Self)
        ensures
            r@ == self@,
    {
        let exts = self.exts.clone();
        let rhs = self.rhs.clone();
        assert(exts@ =~= self.exts@);
        assert(terms_view(rhs@) =~= terms_view(self.rhs@));
        TensorDef { base: self.base, exts, rhs }
    }
}

impl Clone for Computation {
    fn clone(&self) -> (r: Self)
        ensures
            r@ == self@,
    {
        let ranges = self.ranges.clone();
        let mut tensors: Vec<(TensorId, TensorInfo)> = Vec::new();
        let mut i: usize = 0;
        while i < self.tensors.len()
            invariant
                i <= self.tensors.len(),
                tensors@.len() == i,
                forall|j: int|
                    0 <= j < i ==> (#[trigger] tensors@[j]).0 == self.tensors@[j].0
                        && tensors@[j].1@ == self.tensors@[j].1@,
            decreases self.tensors.len() - i,
        {
            let entry = &self.tensors[i];
            tensors.push((entry.0, entry.1.clone()));
            i = i + 1;
        }
        let definitions = self.definitions.clone();
        assert(ranges@ =~= self.ranges@);
        assert(tensors_view(tensors@) =~= tensors_view(self.tensors@));
        assert(definitions_view(definitions@) =~= definitions_view(self.definitions@));
        Computation { ranges, tensors, definitions }
    }
}

impl Default for Computation {
    fn default() -> (r: Self)
        ensures
            r@.ranges.len() == 0,
            r@.tensors.len() == 0,
            r@.definitions.len() == 0,
    {
        Computation { ranges: Vec::new(), tensors: Vec::new(), definitions: Vec::new() }
    }
}

} // verus!
