//! Symbolic state transitions.

use crate::action::{Action, ActionQuery};
use crate::biclique::{self, applies_biclique};
use crate::parenthesize::{self, applies_parenthesization};
use crate::permutation::{self, applies_permutation};
use crate::coeff::CoeffView;
use crate::repr::{ComputationView, TensorDefView, TensorRefView, TermView};
use crate::state::intermediate::{adds_intermediate, scaled_definition};
use crate::state::{replaces_terms, state_valid, State, StateError, StateView};
use crate::valid::lookup_tensor;
use crate::verify::{extends_interfaces, states_verdict, VerifyError};
use vstd::prelude::*;

verus! {

/// Failure to apply an action to a state.
#[derive(Clone, Debug, PartialEq, Eq)]
pub enum ApplyError {
    State(StateError),
    Unsupported { query: ActionQuery },
}

/// `after` is `before` rewritten by `action`.
pub open spec fn applies(before: StateView, action: &Action, after: StateView) -> bool {
    match action {
        Action::Parenthesize(a) => applies_parenthesization(before, a@, after),
        Action::Biclique(a) => applies_biclique(before, a@, after),
        Action::Permutation(a) => applies_permutation(before, a@, after),
    }
}

/// Why applying `action` to `before` fails with `e`.
pub open spec fn apply_failure(before: StateView, action: &Action, e: StateError) -> bool {
    match action {
        Action::Parenthesize(a) => parenthesize::parenthesize_failure(before, a@, e),
        Action::Biclique(a) => biclique::biclique_failure(before, a@, e),
        Action::Permutation(a) => permutation::permutation_failure(before, a@, e),
    }
}

/// Apply an action selected from this state and return the next canonical
/// state; the given state is left as it is.
pub fn apply(state: &State, action: Action) -> (r: Result<State, ApplyError>)
    ensures
        r matches Ok(next) ==> applies(state@, &action, next@),
        r matches Ok(next) ==> state_valid(next@.computation, next@.protected_outputs),
        r matches Ok(next) ==> next@.protected_outputs == state@.protected_outputs,
        r matches Ok(next) ==> extends_interfaces(state@.computation, next@.computation),
        r matches Err(e) ==> e is State,
        r matches Err(ApplyError::State(e)) ==> apply_failure(state@, &action, e),
{
    let mut next = state.clone();
    let result = match action {
        Action::Parenthesize(a) => parenthesize::apply(&mut next, a),
        Action::Biclique(a) => biclique::apply(&mut next, a),
        Action::Permutation(a) => permutation::apply(&mut next, a),
    };
    match result {
        Ok(()) => {
            proof {
                lemma_applies_extends(state@, action, next@);
            }
            Ok(next)
        },
        Err(e) => Err(ApplyError::State(e)),
    }
}

/// A computation extends its own interfaces.
proof fn lemma_extends_same(c: ComputationView)
    ensures
        extends_interfaces(c, c),
{
}

/// Extending interfaces is transitive.
proof fn lemma_extends_trans(a: ComputationView, b: ComputationView, c: ComputationView)
    requires
        extends_interfaces(a, b),
        extends_interfaces(b, c),
    ensures
        extends_interfaces(a, c),
{
    assert forall|q: int| a.definitions.len() <= q < c.definitions.len() implies lookup_tensor(
        a.tensors,
        (#[trigger] c.definitions[q]).base,
    ) is None by {
        let t = c.definitions[q].base;
        if q < b.definitions.len() {
            assert(b.definitions[q].base == t);
        } else if lookup_tensor(a.tensors, t) is Some {
            assert(lookup_tensor(b.tensors, t) == lookup_tensor(a.tensors, t));
        }
    }
}

/// Adding an intermediate extends the interfaces of a state.
proof fn lemma_adds_extends(
    before: StateView,
    d: TensorDefView,
    after: StateView,
    coeff: CoeffView,
    reference: TensorRefView,
)
    requires
        adds_intermediate(before, d, after, coeff, reference),
    ensures
        extends_interfaces(before.computation, after.computation),
{
    let c0 = before.computation;
    let c1 = after.computation;
    if after == before {
        lemma_extends_same(c0);
    } else {
        let out = choose|out: TensorDefView|
            #[trigger] crate::state::canonicalize::canonical_definition_of(c0, d, out) && {
                &&& out.rhs.len() >= 1
                &&& coeff == out.rhs[0].coeff
                &&& lookup_tensor(c0.tensors, reference.tensor) is None
                &&& forall|s: u32|
                    s < reference.tensor.0 ==> #[trigger] lookup_tensor(c0.tensors, crate::repr::TensorId(s)) is Some
                &&& reference.indices == crate::state::intermediate::ids_of(d.exts)
                &&& c1.ranges == c0.ranges
                &&& c1.tensors == c0.tensors.push(
                    (
                        reference.tensor,
                        crate::repr::TensorInfoView { rank: d.exts.len() as usize, symmetry: Seq::empty() },
                    ),
                )
                &&& c1.definitions == c0.definitions.push(scaled_definition(out, reference.tensor))
            };
        let entry = (
            reference.tensor,
            crate::repr::TensorInfoView { rank: d.exts.len() as usize, symmetry: Seq::empty() },
        );
        assert forall|t: crate::repr::TensorId| lookup_tensor(c0.tensors, t) is Some implies #[trigger] lookup_tensor(
            c1.tensors,
            t,
        ) == lookup_tensor(c0.tensors, t) by {
            crate::state::intermediate::lemma_lookup_push(c0.tensors, entry, t);
        }
        assert(c1.definitions[c0.definitions.len() as int].base == reference.tensor);
    }
}

/// Replacing terms of a definition extends the interfaces of a state.
proof fn lemma_replaces_extends(
    before: StateView,
    definition: int,
    removed: Seq<usize>,
    replacements: Seq<TermView>,
    after: StateView,
)
    requires
        replaces_terms(before, definition, removed, replacements, after),
    ensures
        extends_interfaces(before.computation, after.computation),
{
    let c = before.computation;
    let updated = crate::state::replaced_definition(c.definitions[definition], removed, replacements);
    let out = choose|out: TensorDefView|
        #[trigger] crate::state::canonicalize::canonical_definition_of(c, updated, out) && after.computation
            == ComputationView { definitions: c.definitions.update(definition, out), ..c };
    assert forall|q: int| 0 <= q < c.definitions.len() implies (#[trigger] after.computation.definitions[q]).base
        == c.definitions[q].base && crate::verify::interfaces_agree(c.definitions[q], after.computation.definitions[q]) by {
        if q == definition {
            assert(after.computation.definitions[q] == out);
        }
    }
}

/// An applied action extends the interfaces of the state it was applied to.
proof fn lemma_applies_extends(before: StateView, action: Action, after: StateView)
    requires
        applies(before, &action, after),
    ensures
        extends_interfaces(before.computation, after.computation),
{
    match action {
        Action::Parenthesize(a) => {
            let a = a@;
            let (s1, lc, lr, s2, rc, rr) = choose|
                s1: StateView,
                left_coeff: CoeffView,
                left_ref: TensorRefView,
                s2: StateView,
                right_coeff: CoeffView,
                right_ref: TensorRefView,
            |
                #![trigger adds_intermediate(before, parenthesize::left_candidate(a), s1, left_coeff, left_ref), adds_intermediate(s1, parenthesize::right_candidate(a), s2, right_coeff, right_ref)]
                adds_intermediate(before, parenthesize::left_candidate(a), s1, left_coeff, left_ref) && adds_intermediate(
                    s1,
                    parenthesize::right_candidate(a),
                    s2,
                    right_coeff,
                    right_ref,
                ) && replaces_terms(
                    s2,
                    a.target.definition.0 as int,
                    seq![a.target.term],
                    seq![parenthesize::replacement_term(a, left_coeff, left_ref, right_coeff, right_ref)],
                    after,
                );
            lemma_adds_extends(before, parenthesize::left_candidate(a), s1, lc, lr);
            lemma_adds_extends(s1, parenthesize::right_candidate(a), s2, rc, rr);
            lemma_replaces_extends(
                s2,
                a.target.definition.0 as int,
                seq![a.target.term],
                seq![parenthesize::replacement_term(a, lc, lr, rc, rr)],
                after,
            );
            lemma_extends_trans(before.computation, s1.computation, s2.computation);
            lemma_extends_trans(before.computation, s2.computation, after.computation);
        },
        Action::Biclique(a) => {
            let a = a@;
            let (s1, lc, lr, s2, rc, rr) = choose|
                s1: StateView,
                left_coeff: CoeffView,
                left_ref: TensorRefView,
                s2: StateView,
                right_coeff: CoeffView,
                right_ref: TensorRefView,
            |
                #![trigger adds_intermediate(before, a.children.0, s1, left_coeff, left_ref), adds_intermediate(s1, a.children.1, s2, right_coeff, right_ref)]
                adds_intermediate(before, a.children.0, s1, left_coeff, left_ref) && adds_intermediate(
                    s1,
                    a.children.1,
                    s2,
                    right_coeff,
                    right_ref,
                ) && replaces_terms(
                    s2,
                    a.target.0 as int,
                    a.terms,
                    seq![biclique::biclique_replacement(a, left_coeff, left_ref, right_coeff, right_ref)],
                    after,
                );
            lemma_adds_extends(before, a.children.0, s1, lc, lr);
            lemma_adds_extends(s1, a.children.1, s2, rc, rr);
            lemma_replaces_extends(
                s2,
                a.target.0 as int,
                a.terms,
                seq![biclique::biclique_replacement(a, lc, lr, rc, rr)],
                after,
            );
            lemma_extends_trans(before.computation, s1.computation, s2.computation);
            lemma_extends_trans(before.computation, s2.computation, after.computation);
        },
        Action::Permutation(a) => {
            let a = a@;
            let (s1, coeff, reference) = choose|s1: StateView, coeff: CoeffView, reference: TensorRefView|
                #[trigger] adds_intermediate(before, a.intermediate, s1, coeff, reference) && replaces_terms(
                    s1,
                    a.target.0 as int,
                    a.terms,
                    permutation::use_terms(a, coeff, reference),
                    after,
                );
            lemma_adds_extends(before, a.intermediate, s1, coeff, reference);
            lemma_replaces_extends(s1, a.target.0 as int, a.terms, permutation::use_terms(a, coeff, reference), after);
            lemma_extends_trans(before.computation, s1.computation, after.computation);
        },
    }
}

/// Comparing a state with the state that an action rewrote it to never
/// reports a mismatch of protected outputs, interfaces or tensor
/// descriptions: the comparison reaches the canonical differences of the
/// outputs (or runs out of index identities).
pub proof fn lemma_applied_states_comparable(
    before: StateView,
    action: Action,
    after: StateView,
    r: Result<bool, VerifyError>,
)
    requires
        state_valid(before.computation, before.protected_outputs),
        state_valid(after.computation, after.protected_outputs),
        after.protected_outputs == before.protected_outputs,
        applies(before, &action, after),
        states_verdict(before, after, r),
    ensures
        r is Ok || r == Err::<bool, VerifyError>(VerifyError::ExhaustedIndexIds) || r matches Err(
            VerifyError::Canonicalization(_),
        ),
{
    lemma_applies_extends(before, action, after);
    crate::verify::lemma_extended_states_comparable(before, after, r);
}

} // verus!
