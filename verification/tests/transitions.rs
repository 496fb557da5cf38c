use gristmill_rewrites::{
    apply, equivalent_computations, equivalent_states, query, Action, ActionQuery, ActionSpace,
    Coefficient, Computation, DefinitionPosition, Index, IndexId, QueryError, RangeId, State,
    StateError, TensorDef, TensorId, TensorInfo, TensorRef, Term, TermPosition, VerifyError,
};

const RANGE: RangeId = RangeId(0);
const OTHER_RANGE: RangeId = RangeId(1);
const A: TensorId = TensorId(0);
const B: TensorId = TensorId(1);
const C: TensorId = TensorId(2);
const OUTPUT: TensorId = TensorId(3);

fn index(id: u32) -> Index {
    Index {
        id: IndexId(id),
        range: RANGE,
    }
}

fn factor(tensor: TensorId, indices: &[u32]) -> TensorRef {
    TensorRef {
        tensor,
        indices: indices.iter().copied().map(IndexId).collect(),
    }
}

fn info(rank: usize) -> TensorInfo {
    TensorInfo {
        rank,
        symmetry: Vec::new(),
    }
}

/// `OUTPUT[i] = sum_{j,k} 2 A[i,j] B[j,k] C[k]`.
fn chain() -> Computation {
    Computation {
        ranges: vec![RANGE, OTHER_RANGE],
        tensors: vec![(A, info(2)), (B, info(2)), (C, info(1)), (OUTPUT, info(1))],
        definitions: vec![TensorDef {
            base: OUTPUT,
            exts: vec![index(0)],
            rhs: vec![Term {
                sums: vec![index(1), index(2)],
                coeff: Coefficient::from_integer(2),
                factors: vec![factor(A, &[0, 1]), factor(B, &[1, 2]), factor(C, &[2])],
            }],
        }],
    }
}

fn chain_state() -> State {
    State::new(chain(), vec![OUTPUT]).unwrap()
}

fn target() -> TermPosition {
    TermPosition {
        definition: DefinitionPosition(0),
        term: 0,
    }
}

fn split(state: &State, left: &[bool]) -> Action {
    let ActionSpace::Parenthesize(space) =
        query(state, ActionQuery::Parenthesize(target())).unwrap()
    else {
        panic!("expected a parenthesization space");
    };
    space.select(left).unwrap()
}

#[test]
fn applying_leaves_the_source_state_unchanged() {
    let state = chain_state();
    let action = split(&state, &[false, true, true]);

    let next = apply(&state, action).unwrap();

    assert_eq!(state, chain_state());
    assert_ne!(next, state);
    assert_eq!(next.computation().definitions.len(), 2);
}

#[test]
fn applied_states_keep_outputs_and_stay_equivalent() {
    let state = chain_state();
    for left in [[true, false, false], [true, true, false], [false, true, false]] {
        let next = apply(&state, split(&state, &left)).unwrap();

        assert_eq!(next.protected_outputs(), state.protected_outputs());
        assert_eq!(equivalent_states(&state, &next), Ok(true));
        assert_eq!(equivalent_states(&next, &state), Ok(true));
    }
}

#[test]
fn complementary_masks_give_the_same_state() {
    let state = chain_state();
    let first = apply(&state, split(&state, &[true, false, false])).unwrap();
    let second = apply(&state, split(&state, &[false, true, true])).unwrap();
    assert_eq!(first, second);
}

#[test]
fn queries_reject_positions_outside_the_state() {
    let state = chain_state();
    let missing = DefinitionPosition(4);

    assert_eq!(
        query(&state, ActionQuery::BicliqueFactor(missing)),
        Err(QueryError::DefinitionOutOfBounds { position: missing })
    );
    assert_eq!(
        query(&state, ActionQuery::PermutationFactor(missing)),
        Err(QueryError::DefinitionOutOfBounds { position: missing })
    );
    let term = TermPosition {
        definition: DefinitionPosition(0),
        term: 1,
    };
    assert_eq!(
        query(&state, ActionQuery::Parenthesize(term)),
        Err(QueryError::TermOutOfBounds { position: term })
    );
}

#[test]
fn a_state_is_equivalent_to_itself() {
    let state = chain_state();
    assert_eq!(equivalent_states(&state, &chain_state()), Ok(true));
}

#[test]
fn a_different_coefficient_is_not_equivalent() {
    let mut other = chain();
    other.definitions[0].rhs[0].coeff = Coefficient::from_integer(3);
    let other = State::new(other, vec![OUTPUT]).unwrap();
    assert_eq!(equivalent_states(&chain_state(), &other), Ok(false));
}

#[test]
fn reports_the_side_of_an_invalid_computation() {
    let mut broken = chain();
    broken.definitions[0].rhs[0].factors[2] = factor(TensorId(9), &[2]);

    assert_eq!(
        equivalent_computations(&broken, &chain(), &[OUTPUT]),
        Err(VerifyError::InvalidComputation {
            side: "lhs",
            error: StateError::UnknownTensor {
                tensor: TensorId(9)
            },
        })
    );
    assert_eq!(
        equivalent_computations(&chain(), &broken, &[OUTPUT]),
        Err(VerifyError::InvalidComputation {
            side: "rhs",
            error: StateError::UnknownTensor {
                tensor: TensorId(9)
            },
        })
    );
}

#[test]
fn reports_output_interface_mismatches() {
    let mut scalar = chain();
    scalar.tensors[3].1 = info(0);
    scalar.definitions[0].exts = Vec::new();
    scalar.definitions[0].rhs[0].sums = vec![index(0), index(1), index(2)];
    assert_eq!(
        equivalent_computations(&chain(), &scalar, &[OUTPUT]),
        Err(VerifyError::OutputArityMismatch {
            tensor: OUTPUT,
            lhs: 1,
            rhs: 0,
        })
    );

    let mut moved = chain();
    moved.definitions[0].exts[0].range = OTHER_RANGE;
    assert_eq!(
        equivalent_computations(&chain(), &moved, &[OUTPUT]),
        Err(VerifyError::OutputRangeMismatch {
            tensor: OUTPUT,
            position: 0,
            lhs: RANGE,
            rhs: OTHER_RANGE,
        })
    );
}
