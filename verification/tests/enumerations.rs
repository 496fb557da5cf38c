use gristmill_rewrites::biclique::{align_exts, contracted_orders, Owner};
use gristmill_rewrites::canon::{best_factor_orders, canonical_sum_ids, combine, compose};
use gristmill_rewrites::order::{compare_index_ids, compare_indices, compare_usizes};
use gristmill_rewrites::parenthesize::{split_factors, used_indices, validate_choice};
use gristmill_rewrites::permutation::{maximal_cliques, relative_permutation};
use gristmill_rewrites::state::canonicalize::index_id;
use gristmill_rewrites::state::intermediate::permutations;
use gristmill_rewrites::verify::fresh_index;
use gristmill_rewrites::{
    CanonError, Index, IndexId, ParenthesizeChoiceError, RangeId, SymmetryAction, TensorId,
    TensorRef, VerifyError,
};

fn index(id: u32, range: u32) -> Index {
    Index {
        id: IndexId(id),
        range: RangeId(range),
    }
}

fn ids(values: &[u32]) -> Vec<IndexId> {
    values.iter().copied().map(IndexId).collect()
}

fn factor(tensor: u32, indices: &[u32]) -> TensorRef {
    TensorRef {
        tensor: TensorId(tensor),
        indices: ids(indices),
    }
}

#[test]
fn permutations_lists_every_arrangement_once_identity_first() {
    let perms = permutations(3);
    assert_eq!(perms.len(), 6);
    assert_eq!(perms[0], vec![0, 1, 2]);
    for expected in [
        vec![0, 1, 2],
        vec![0, 2, 1],
        vec![1, 0, 2],
        vec![1, 2, 0],
        vec![2, 0, 1],
        vec![2, 1, 0],
    ] {
        assert_eq!(perms.iter().filter(|perm| **perm == expected).count(), 1);
    }
    assert_eq!(permutations(0), vec![Vec::<usize>::new()]);
    assert_eq!(permutations(4).len(), 24);
}

#[test]
fn maximal_cliques_reports_each_maximal_clique() {
    // A triangle 0-1-2 with a pendant node 3 attached to 2, and an isolated node 4.
    let mut neighbors = vec![vec![false; 5]; 5];
    for (a, b) in [(0, 1), (1, 2), (0, 2), (2, 3)] {
        neighbors[a][b] = true;
        neighbors[b][a] = true;
    }
    let mut cliques = maximal_cliques(&neighbors)
        .into_iter()
        .map(|mut clique| {
            clique.sort();
            clique
        })
        .collect::<Vec<_>>();
    cliques.sort();
    assert_eq!(cliques, vec![vec![0, 1, 2], vec![2, 3], vec![4]]);
}

#[test]
fn contracted_orders_keep_the_sorted_range_pattern() {
    let same_range = contracted_orders(&[index(5, 0), index(3, 0)]);
    assert_eq!(
        same_range,
        vec![vec![index(3, 0), index(5, 0)], vec![index(5, 0), index(3, 0)]]
    );

    let mixed = contracted_orders(&[index(1, 1), index(2, 0), index(3, 0)]);
    assert_eq!(mixed.len(), 2);
    for order in &mixed {
        assert_eq!(
            order.iter().map(|index| index.range).collect::<Vec<_>>(),
            vec![RangeId(0), RangeId(0), RangeId(1)]
        );
    }
    assert!(mixed.contains(&vec![index(2, 0), index(3, 0), index(1, 1)]));
    assert!(mixed.contains(&vec![index(3, 0), index(2, 0), index(1, 1)]));

    assert_eq!(contracted_orders(&[]), vec![Vec::<Index>::new()]);
}

#[test]
fn relative_permutation_maps_pivot_slots_to_occurrence_slots() {
    let exts = [index(0, 0), index(1, 0), index(2, 1)];
    assert_eq!(
        relative_permutation(&exts, &ids(&[0, 1, 2]), &ids(&[1, 0, 2])),
        Some(vec![1, 0, 2])
    );
    assert_eq!(
        relative_permutation(&exts, &ids(&[0, 1, 2]), &ids(&[0, 1, 2])),
        Some(vec![0, 1, 2])
    );
    // Slot 2 has another range than slots 0 and 1.
    assert_eq!(
        relative_permutation(&exts, &ids(&[0, 1, 2]), &ids(&[2, 1, 0])),
        None
    );
    // Repeated and unknown identities relate nothing.
    assert_eq!(
        relative_permutation(&exts, &ids(&[0, 0, 2]), &ids(&[0, 1, 2])),
        None
    );
    assert_eq!(
        relative_permutation(&exts, &ids(&[0, 1, 9]), &ids(&[0, 1, 2])),
        None
    );
}

#[test]
fn fresh_identities_count_upwards_until_exhausted() {
    let mut next = 5u64;
    assert_eq!(fresh_index(&mut next), Ok(IndexId(5)));
    assert_eq!(next, 6);
    let mut last = u32::MAX as u64;
    assert_eq!(fresh_index(&mut last), Ok(IndexId(u32::MAX)));
    assert_eq!(fresh_index(&mut last), Err(VerifyError::ExhaustedIndexIds));
    assert_eq!(last, u32::MAX as u64 + 1);
}

#[test]
fn positions_become_index_ids_within_u32() {
    assert_eq!(index_id(5), Ok(IndexId(5)));
    assert_eq!(index_id(u32::MAX as usize), Ok(IndexId(u32::MAX)));
    if usize::BITS > 32 {
        assert_eq!(
            index_id(u32::MAX as usize + 1),
            Err(CanonError::ExhaustedIndexIds)
        );
    }
}

#[test]
fn summed_ids_skip_the_fixed_ones() {
    let fixed = [index(0, 0), index(2, 0)];
    assert_eq!(canonical_sum_ids(&fixed, 3), Ok(ids(&[1, 3, 4])));
    assert_eq!(canonical_sum_ids(&fixed, 0), Ok(Vec::new()));
    assert_eq!(canonical_sum_ids(&[], 2), Ok(ids(&[0, 1])));
}

#[test]
fn symmetry_actions_and_permutations_compose() {
    assert_eq!(
        combine(SymmetryAction::Negate, SymmetryAction::Negate),
        SymmetryAction::Identity
    );
    assert_eq!(
        combine(SymmetryAction::Identity, SymmetryAction::Negate),
        SymmetryAction::Negate
    );
    assert_eq!(
        combine(SymmetryAction::Identity, SymmetryAction::Identity),
        SymmetryAction::Identity
    );
    assert_eq!(compose(&vec![2, 0, 1], &vec![1, 2, 0]), vec![0, 1, 2]);
    assert_eq!(compose(&vec![1, 0, 2], &vec![0, 2, 1]), vec![1, 2, 0]);
}

#[test]
fn owners_swap() {
    assert_eq!(Owner::Left.opposite(), Owner::Right);
    assert_eq!(Owner::Right.opposite(), Owner::Left);
}

#[test]
fn lists_order_lexicographically_with_prefixes_first() {
    assert_eq!(compare_usizes(&vec![0, 2], &vec![1]), -1);
    assert_eq!(compare_usizes(&vec![1, 0], &vec![1]), 1);
    assert_eq!(compare_usizes(&vec![1, 2], &vec![1, 2]), 0);
    assert_eq!(compare_index_ids(&ids(&[3]), &ids(&[3, 0])), -1);
    assert_eq!(compare_index_ids(&ids(&[4]), &ids(&[3, 9])), 1);
    assert_eq!(compare_indices(&vec![index(1, 5)], &vec![index(2, 0)]), -1);
    assert_eq!(compare_indices(&vec![index(1, 5)], &vec![index(1, 4)]), 1);
    assert_eq!(compare_indices(&vec![index(1, 5)], &vec![index(1, 5)]), 0);
}

#[test]
fn used_indices_are_sorted_and_distinct() {
    let factors = [factor(0, &[7, 2]), factor(1, &[2, 5, 7])];
    assert_eq!(used_indices(&factors), ids(&[2, 5, 7]));
    assert_eq!(used_indices(&[]), Vec::new());
}

#[test]
fn split_factors_follows_the_mask() {
    let factors = [factor(0, &[]), factor(1, &[]), factor(2, &[])];
    let (left, right) = split_factors(&factors, &[true, false, true]);
    assert_eq!(left, vec![factor(0, &[]), factor(2, &[])]);
    assert_eq!(right, vec![factor(1, &[])]);
}

#[test]
fn partition_masks_are_validated() {
    assert_eq!(validate_choice(3, &[true, false, false]), Ok(()));
    assert_eq!(
        validate_choice(2, &[true, false]),
        Err(ParenthesizeChoiceError::NoParenthesization { factor_count: 2 })
    );
    assert_eq!(
        validate_choice(3, &[true]),
        Err(ParenthesizeChoiceError::WrongPartitionLength {
            expected: 3,
            got: 1
        })
    );
    assert_eq!(
        validate_choice(3, &[false, false, false]),
        Err(ParenthesizeChoiceError::EmptyPartitionSide)
    );
}

#[test]
fn aligned_externals_follow_the_scope() {
    let scope = [index(7, 0), index(3, 1), index(9, 0)];
    let fixed = [index(0, 0), index(1, 1), index(2, 0)];
    assert_eq!(
        align_exts(&scope, &fixed, &[index(9, 0), index(7, 0)]),
        Ok(vec![index(0, 0), index(2, 0)])
    );
    assert_eq!(
        align_exts(&scope, &fixed, &[index(4, 0)]),
        Err(CanonError::UnknownIndex { index: IndexId(4) })
    );
}

#[test]
fn best_factor_orders_lists_each_sorted_arrangement_once() {
    let tensors = vec![TensorId(1), TensorId(0), TensorId(1)];
    let mut orders = best_factor_orders(&tensors);
    assert_eq!(orders.len(), 2);
    orders.sort();
    assert_eq!(orders, vec![vec![1, 0, 2], vec![1, 2, 0]]);
    let single = best_factor_orders(&vec![TensorId(4), TensorId(2), TensorId(3)]);
    assert_eq!(single, vec![vec![1, 2, 0]]);
}
