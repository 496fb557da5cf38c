//! Symbolic rewrite kernel for tensor computations: validated states,
//! canonical forms, rewrite queries and actions, and exact equivalence.

pub mod action;
pub mod biclique;
pub mod canon;
pub mod coeff;
mod count;
pub mod order;
pub mod parenthesize;
pub mod permutation;
pub mod repr;
pub mod state;
pub mod transition;
pub mod valid;
pub mod verify;

pub use action::{
    query, Action, ActionQuery, ActionSpace, BicliqueAction, BicliqueChoiceError, BicliqueSpace,
    DefinitionPosition, ParenthesizeAction, ParenthesizeChoiceError, ParenthesizeSpace,
    PermutationAction, PermutationChoiceError, PermutationSpace, QueryError, TermPosition,
};
pub use canon::CanonError;
pub use coeff::Coefficient;
pub use repr::{
    Computation, Index, IndexId, RangeId, SymmetryAction, SymmetryGenerator, TensorDef, TensorId,
    TensorInfo, TensorRef, Term,
};
pub use state::{State, StateError};
pub use transition::{apply, ApplyError};
pub use verify::{equivalent_computations, equivalent_states, VerifyError};
