//! Shared symbolic rewrite query and action API.

use crate::biclique::{self, biclique_answer, splits_countable, BicliqueSpaceView};
use crate::canon::CanonError;
use crate::parenthesize::{self, parenthesize_answer, ParenthesizeSpaceView};
use crate::permutation::{self, permutation_answer, PermutationSpaceView};
use crate::state::State;
use vstd::prelude::*;

pub use crate::biclique::{BicliqueAction, BicliqueChoiceError, BicliqueSpace};
pub use crate::parenthesize::{ParenthesizeAction, ParenthesizeChoiceError, ParenthesizeSpace};
pub use crate::permutation::{PermutationAction, PermutationChoiceError, PermutationSpace};

verus! {

/// A position in the state's definition sequence.
#[derive(Clone, Copy, Debug, PartialEq, Eq, Hash, Structural)]
pub struct DefinitionPosition(pub usize);

/// A term position within a definition.
#[derive(Clone, Copy, Debug, PartialEq, Eq, Hash, Structural)]
pub struct TermPosition {
    pub definition: DefinitionPosition,
    pub term: usize,
}

/// A rewrite-family query with a target appropriate to that family.
#[derive(Clone, Copy, Debug, PartialEq, Eq, Hash, Structural)]
pub enum ActionQuery {
    Parenthesize(TermPosition),
    BicliqueFactor(DefinitionPosition),
    PermutationFactor(DefinitionPosition),
}

/// Failure to construct an action space for a query.
#[derive(Clone, Debug, PartialEq, Eq)]
pub enum QueryError {
    DefinitionOutOfBounds { position: DefinitionPosition },
    TermOutOfBounds { position: TermPosition },
    Canonicalization(CanonError),
}

/// A compact, family-specific description of valid policy choices.
#[derive(Debug, PartialEq, Eq)]
pub enum ActionSpace {
    Parenthesize(ParenthesizeSpace),
    Biclique(BicliqueSpace),
    Permutation(PermutationSpace),
}

impl ActionSpace {
    /// The query that this space answers.
    pub fn query(&self) -> (r: ActionQuery)
        ensures
            r == match self {
                ActionSpace::Parenthesize(space) => ActionQuery::Parenthesize(space@.target),
                ActionSpace::Biclique(space) => ActionQuery::BicliqueFactor(space@.target),
                ActionSpace::Permutation(space) => ActionQuery::PermutationFactor(space@.target),
            },
    {
        match self {
            ActionSpace::Parenthesize(space) => ActionQuery::Parenthesize(space.target()),
            ActionSpace::Biclique(space) => ActionQuery::BicliqueFactor(space.target()),
            ActionSpace::Permutation(space) => ActionQuery::PermutationFactor(space.target()),
        }
    }
}

/// One validated policy choice.
#[derive(Debug, PartialEq, Eq)]
pub enum Action {
    Parenthesize(ParenthesizeAction),
    Biclique(BicliqueAction),
    Permutation(PermutationAction),
}

impl Action {
    /// The query whose space this action was selected from.
    pub fn query(&self) -> (r: ActionQuery)
        ensures
            r == match self {
                Action::Parenthesize(action) => ActionQuery::Parenthesize(action@.target),
                Action::Biclique(action) => ActionQuery::BicliqueFactor(action@.target),
                Action::Permutation(action) => ActionQuery::PermutationFactor(action@.target),
            },
    {
        match self {
            Action::Parenthesize(action) => ActionQuery::Parenthesize(action.target()),
            Action::Biclique(action) => ActionQuery::BicliqueFactor(action.target()),
            Action::Permutation(action) => ActionQuery::PermutationFactor(action.target()),
        }
    }
}

impl Clone for Action {
    fn clone(&self) -> (r: Self)
        ensures
            match (self, r) {
                (Action::Parenthesize(a), Action::Parenthesize(b)) => b@ == a@,
                (Action::Biclique(a), Action::Biclique(b)) => b@ == a@,
                (Action::Permutation(a), Action::Permutation(b)) => b@ == a@,
                _ => false,
            },
    {
        match self {
            Action::Parenthesize(action) => Action::Parenthesize(action.clone()),
            Action::Biclique(action) => Action::Biclique(action.clone()),
            Action::Permutation(action) => Action::Permutation(action.clone()),
        }
    }
}

/// Every biclique query in `request` targets a definition whose splits can be
/// counted (see [`splits_countable`]).
pub open spec fn query_countable(state: &State, request: ActionQuery) -> bool {
    match request {
        ActionQuery::BicliqueFactor(target) => target.0 < state@.computation.definitions.len()
            ==> splits_countable(state@.computation.definitions[target.0 as int]),
        _ => true,
    }
}

/// What `query` answers, family by family.
pub open spec fn query_answers(state: &State, request: ActionQuery, r: &Result<ActionSpace, QueryError>) -> bool {
    match request {
        ActionQuery::Parenthesize(target) => match r {
            Ok(ActionSpace::Parenthesize(space)) => parenthesize_answer(state@, target) == Ok::<
                ParenthesizeSpaceView,
                QueryError,
            >(space@),
            Ok(_) => false,
            Err(e) => parenthesize_answer(state@, target) == Err::<ParenthesizeSpaceView, QueryError>(*e),
        },
        ActionQuery::BicliqueFactor(target) => match r {
            Ok(ActionSpace::Biclique(space)) => biclique_answer(
                state@,
                target,
                Ok::<BicliqueSpaceView, QueryError>(space@),
            ),
            Ok(_) => false,
            Err(e) => biclique_answer(state@, target, Err::<BicliqueSpaceView, QueryError>(*e)),
        },
        ActionQuery::PermutationFactor(target) => match r {
            Ok(ActionSpace::Permutation(space)) => permutation_answer(
                state@,
                target,
                Ok::<PermutationSpaceView, QueryError>(space@),
            ),
            Ok(_) => false,
            Err(e) => permutation_answer(state@, target, Err::<PermutationSpaceView, QueryError>(*e)),
        },
    }
}

/// Query the legal actions for one rewrite family at one typed target.
pub fn query(state: &State, request: ActionQuery) -> (r: Result<ActionSpace, QueryError>)
    requires
        query_countable(state, request),
    ensures
        query_answers(state, request, &r),
{
    match request {
        ActionQuery::Parenthesize(target) => match parenthesize::query(state, target) {
            Ok(space) => Ok(ActionSpace::Parenthesize(space)),
            Err(e) => Err(e),
        },
        ActionQuery::BicliqueFactor(target) => match biclique::query(state, target) {
            Ok(space) => Ok(ActionSpace::Biclique(space)),
            Err(e) => Err(e),
        },
        ActionQuery::PermutationFactor(target) => match permutation::query(state, target) {
            Ok(space) => Ok(ActionSpace::Permutation(space)),
            Err(e) => Err(e),
        },
    }
}

} // verus!
