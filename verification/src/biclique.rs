//! Biclique factorization queries and policy choices.

use crate::action::{Action, DefinitionPosition, QueryError};
use crate::canon::{canon_term, compare_sums_and_factors, CanonError};
use crate::coeff::{is_zero_value, ratio_product, CoeffView, Coefficient};
use crate::order::{compare_indices, index_keys, lex_order};
use crate::parenthesize::{bipartition_of, bipartition_term, BipartitionView, TermBipartition};
use crate::repr::{
    terms_view, Computation, Index, IndexId, TensorDef, TensorDefView, TensorId, TensorRef,
    TensorRefView, Term, TermView,
};
use crate::state::canonicalize::{index_id, positional_exts, renames_to_positions};
use crate::state::intermediate::adds_intermediate;
use crate::state::{replaces_terms, State, StateError, StateView};
use crate::permutation::selected;
use crate::valid::{distinct_ids, has_id, term_uses};
use vstd::arithmetic::power2::pow2;
use vstd::prelude::*;

verus! {

// ----------------------------------------------------------------------------
// Splits of a term
// ----------------------------------------------------------------------------

/// Bit `p` of `c`, least significant first.
pub open spec fn bit(c: nat, p: nat) -> bool
    decreases p,
{
    if p == 0 {
        c % 2 == 1
    } else {
        bit(c / 2, (p - 1) as nat)
    }
}

/// The mask of split `c` of `n` factors: factor zero on the left, factor
/// `k + 1` on the left when bit `k` of `c` is set.
pub open spec fn split_mask(n: nat, c: nat) -> Seq<bool> {
    Seq::new(n, |k: int| k == 0 || bit(c, (k - 1) as nat))
}

/// Every unordered split of a term's factors into two nonempty sides, factor
/// zero always on the left. Every summed index of the term must be used.
#[verifier::loop_isolation(false)]
pub fn enumerate_splits(exts: &[Index], term: &Term) -> (r: Vec<TermBipartition>)
    requires
        term.factors.len() <= usize::BITS,
        forall|k: int| 0 <= k < term.sums.len() ==> term_uses(term@, (#[trigger] term@.sums[k]).id),
    ensures
        term.factors.len() < 2 ==> r.len() == 0,
        term.factors.len() >= 2 ==> r.len() == pow2((term.factors.len() - 1) as nat) - 1,
        forall|c: int|
            0 <= c < r.len() ==> (#[trigger] r@[c])@ == bipartition_of(
                exts@,
                term@,
                split_mask(term.factors.len() as nat, c as nat),
            ),
{
    let mut splits: Vec<TermBipartition> = Vec::new();
    let n = term.factors.len();
    if n < 2 {
        return splits;
    }
    let mut count: usize = 1;
    let mut i: usize = 0;
    proof {
        vstd::layout::unsigned_int_max_values();
        vstd::arithmetic::power2::lemma_pow2(0);
        assert(vstd::arithmetic::power::pow(2, 0) == 1) by {
            vstd::arithmetic::power::lemma_pow0(2);
        }
    }
    while i < n - 1
        invariant
            i <= n - 1,
            n <= usize::BITS,
            count == pow2(i as nat),
            usize::MAX as nat == pow2(usize::BITS as nat) - 1,
        decreases n - 1 - i,
    {
        proof {
            vstd::arithmetic::power2::lemma_pow2_unfold((i + 1) as nat);
            vstd::arithmetic::power2::lemma_pow2_strictly_increases((i + 1) as nat, usize::BITS as nat);
        }
        count = count * 2;
        i = i + 1;
    }
    proof {
        vstd::arithmetic::power2::lemma_pow2_pos(i as nat);
    }
    let split_count = count - 1;
    let mut choice: usize = 0;
    while choice < split_count
        invariant
            choice <= split_count,
            n == term.factors.len() >= 2,
            splits.len() == choice,
            forall|c: int|
                0 <= c < choice ==> (#[trigger] splits@[c])@ == bipartition_of(exts@, term@, split_mask(n as nat, c as nat)),
        decreases split_count - choice,
    {
        let mut left: Vec<bool> = Vec::new();
        left.push(true);
        let mut rest = choice;
        let mut p: usize = 0;
        while p < n - 1
            invariant
                p <= n - 1,
                left.len() == p + 1,
                forall|k: int| 0 <= k < p + 1 ==> left@[k] == split_mask(n as nat, choice as nat)[k],
                forall|q: nat| #[trigger] bit(rest as nat, q) == bit(choice as nat, (p + q) as nat),
            decreases n - 1 - p,
        {
            proof {
                assert(bit(rest as nat, 0) == bit(choice as nat, p as nat));
                assert forall|q: nat| #[trigger] bit((rest / 2) as nat, q) == bit(choice as nat, (p + 1 + q) as nat) by {
                    assert(bit(rest as nat, q + 1) == bit((rest as nat) / 2, q));
                    assert(bit(rest as nat, q + 1) == bit(choice as nat, (p + q + 1) as nat));
                }
            }
            left.push(rest % 2 == 1);
            rest = rest / 2;
            p = p + 1;
        }
        assert(left@ =~= split_mask(n as nat, choice as nat));
        splits.push(bipartition_term(exts, term, left.as_slice()));
        choice = choice + 1;
    }
    splits
}

/// Which child of a split owns a graph.
#[derive(Clone, Copy, Debug, PartialEq, Eq, PartialOrd, Ord, Structural)]
pub enum Owner {
    Left,
    Right,
}

impl Owner {
    /// The other child.
    pub fn opposite(self) -> (r: Self)
        ensures
            r == match self {
                Owner::Left => Owner::Right,
                Owner::Right => Owner::Left,
            },
    {
        match self {
            Owner::Left => Owner::Right,
            Owner::Right => Owner::Left,
        }
    }
}

// ----------------------------------------------------------------------------
// Orders of contracted indices
// ----------------------------------------------------------------------------

/// The entries of `indices` at the positions `p`, in order.
pub open spec fn arranged(indices: Seq<Index>, p: Seq<usize>) -> Seq<Index> {
    Seq::new(p.len(), |j: int| indices[p[j] as int])
}

/// Ascending by range, and by identity within a range.
pub open spec fn by_range_then_id(s: Seq<Index>) -> bool {
    forall|a: int, b: int|
        0 <= a < b < s.len() ==> (#[trigger] s[a]).range.0 < (#[trigger] s[b]).range.0 || (s[a].range.0
            == s[b].range.0 && s[a].id.0 <= s[b].id.0)
}

/// `p` arranges `indices` so that position `j` holds an index of range
/// `ranges[j]`.
pub open spec fn fits_ranges(indices: Seq<Index>, ranges: Seq<crate::repr::RangeId>, p: Seq<usize>) -> bool {
    &&& crate::valid::perm_valid(p, indices.len())
    &&& forall|j: int| 0 <= j < indices.len() ==> (#[trigger] indices[p[j] as int]).range == ranges[j]
}

/// The ranges of `s`, in order.
pub open spec fn ranges_of(s: Seq<Index>) -> Seq<crate::repr::RangeId> {
    Seq::new(s.len(), |j: int| s[j].range)
}

/// `order` is an arrangement of `indices` whose ranges are `ranges`.
pub open spec fn is_range_order(indices: Seq<Index>, ranges: Seq<crate::repr::RangeId>, order: Seq<Index>) -> bool {
    exists|p: Seq<usize>| #[trigger] fits_ranges(indices, ranges, p) && order == arranged(indices, p)
}

/// An entry of `orders`, from position `from` on, is `order`.
pub open spec fn lists_order(orders: Seq<Vec<Index>>, from: int, order: Seq<Index>) -> bool {
    exists|k: int| from <= k < orders.len() && #[trigger] orders[k]@ == order
}

/// `orders` lists exactly the arrangements of `indices` whose ranges are
/// `ranges`, position by position.
pub open spec fn lists_range_orders(
    indices: Seq<Index>,
    ranges: Seq<crate::repr::RangeId>,
    orders: Seq<Vec<Index>>,
) -> bool {
    &&& forall|k: int| 0 <= k < orders.len() ==> is_range_order(indices, ranges, (#[trigger] orders[k])@)
    &&& forall|p: Seq<usize>| #[trigger] fits_ranges(indices, ranges, p) ==> lists_order(orders, 0, arranged(indices, p))
}

/// Push every arrangement of the unused contracted indices into the
/// remaining positions, each position taking an index of its range.
fn generate_range_orders(
    contracted: &Vec<Index>,
    ranges: &Vec<crate::repr::RangeId>,
    position: usize,
    used: &mut Vec<bool>,
    current: &mut Vec<Index>,
    result: &mut Vec<Vec<Index>>,
    Ghost(chosen): Ghost<Seq<usize>>,
)
    requires
        position == old(current).len(),
        position <= contracted.len(),
        ranges.len() == contracted.len(),
        old(used).len() == contracted.len(),
        chosen.len() == position,
        chosen.no_duplicates(),
        forall|j: int| 0 <= j < position ==> #[trigger] chosen[j] < contracted.len() && old(current)@[j] == contracted@[chosen[j] as int]
            && contracted@[chosen[j] as int].range == ranges@[j],
        forall|x: int| 0 <= x < contracted.len() ==> #[trigger] old(used)@[x] == chosen.contains(x as usize),
    ensures
        final(current)@ == old(current)@,
        final(used)@ == old(used)@,
        final(result).len() >= old(result).len(),
        forall|k: int| 0 <= k < old(result).len() ==> final(result)@[k] == old(result)@[k],
        forall|k: int|
            old(result).len() <= k < final(result).len() ==> is_range_order(contracted@, ranges@, (#[trigger] final(result)@[k])@),
        forall|p: Seq<usize>| #[trigger] fits_ranges(contracted@, ranges@, p) && crate::state::intermediate::agrees_below(
            p,
            chosen,
            position as int,
        ) ==> lists_order(final(result)@, old(result).len() as int, arranged(contracted@, p)),
        forall|k: int|
            old(result).len() <= k < final(result).len() ==> (#[trigger] final(result)@[k])@.len() == contracted.len()
                && final(result)@[k]@.subrange(0, position as int) == old(current)@,
        contracted@.no_duplicates() ==> forall|a: int, b: int|
            old(result).len() <= a < b < final(result).len() ==> #[trigger] final(result)@[a]@ != #[trigger] final(result)@[b]@,
    decreases contracted.len() - position,
{
    let ghost n = contracted.len();
    if position == contracted.len() {
        let copy = current.clone();
        assert(copy@ =~= current@);
        let ghost before = result@;
        result.push(copy);
        assert(result@[before.len() as int]@.subrange(0, position as int) =~= current@);
        proof {
            assert(copy@ =~= arranged(contracted@, chosen));
            assert(crate::valid::perm_valid(chosen, n as nat)) by {
                assert forall|a: int, b: int| 0 <= a < n && 0 <= b < n && a != b implies #[trigger] chosen[a] != #[trigger] chosen[b] by {}
            }
            assert(fits_ranges(contracted@, ranges@, chosen));
            assert(result@[before.len() as int]@ == arranged(contracted@, chosen));
            assert(is_range_order(contracted@, ranges@, result@[before.len() as int]@));
            assert forall|p: Seq<usize>| #[trigger] fits_ranges(contracted@, ranges@, p) && crate::state::intermediate::agrees_below(
                p,
                chosen,
                position as int,
            ) implies lists_order(result@, before.len() as int, arranged(contracted@, p)) by {
                assert(p =~= chosen);
                assert(result@[before.len() as int]@ == arranged(contracted@, p));
            }
        }
        return;
    }
    let ghost original_used = used@;
    let ghost original_current = current@;
    let ghost start = result@;
    let mut index: usize = 0;
    while index < contracted.len()
        invariant
            index <= contracted.len(),
            n == contracted.len(),
            position < contracted.len(),
            position == current.len(),
            ranges.len() == contracted.len(),
            used@ == original_used,
            current@ == original_current,
            used.len() == contracted.len(),
            chosen.len() == position,
            chosen.no_duplicates(),
            forall|j: int| 0 <= j < position ==> #[trigger] chosen[j] < contracted.len() && current@[j] == contracted@[chosen[j] as int]
                && contracted@[chosen[j] as int].range == ranges@[j],
            forall|x: int| 0 <= x < contracted.len() ==> #[trigger] used@[x] == chosen.contains(x as usize),
            result.len() >= start.len(),
            forall|k: int| 0 <= k < start.len() ==> result@[k] == start[k],
            forall|k: int| start.len() <= k < result.len() ==> is_range_order(contracted@, ranges@, (#[trigger] result@[k])@),
            forall|k: int| start.len() <= k < result.len() ==> (#[trigger] result@[k])@.len() == n
                && result@[k]@.subrange(0, position as int) == original_current && exists|x: int|
                0 <= x < index && result@[k]@[position as int] == contracted@[x],
            contracted@.no_duplicates() ==> forall|a: int, b: int|
                start.len() <= a < b < result.len() ==> #[trigger] result@[a]@ != #[trigger] result@[b]@,
            forall|p: Seq<usize>| #[trigger] fits_ranges(contracted@, ranges@, p) && crate::state::intermediate::agrees_below(
                p,
                chosen,
                position as int,
            ) && p[position as int] < index ==> lists_order(result@, start.len() as int, arranged(contracted@, p)),
        decreases contracted.len() - index,
    {
        if !used[index] && contracted[index].range == ranges[position] {
            used.set(index, true);
            current.push(contracted[index]);
            let ghost next_chosen = chosen.push(index);
            proof {
                assert forall|j: int| 0 <= j < position + 1 implies #[trigger] next_chosen[j] < contracted.len() && current@[j]
                    == contracted@[next_chosen[j] as int] && contracted@[next_chosen[j] as int].range == ranges@[j] by {
                    if j < position {
                        assert(next_chosen[j] == chosen[j]);
                    }
                }
                assert(!chosen.contains(index));
                assert(next_chosen.no_duplicates()) by {
                    assert forall|a: int, b: int| 0 <= a < next_chosen.len() && 0 <= b < next_chosen.len() && a != b implies next_chosen[a] != next_chosen[b] by {
                        if a == position as int && b < position {
                            assert(chosen[b] == next_chosen[b]);
                            assert(chosen.contains(chosen[b]));
                        }
                        if b == position as int && a < position {
                            assert(chosen[a] == next_chosen[a]);
                            assert(chosen.contains(chosen[a]));
                        }
                    }
                }
                assert forall|x: int| 0 <= x < contracted.len() implies #[trigger] used@[x] == next_chosen.contains(x as usize) by {
                    if x == index as int {
                        assert(next_chosen[position as int] == index);
                    } else {
                        assert(used@[x] == original_used[x]);
                        if next_chosen.contains(x as usize) {
                            let w = choose|w: int| 0 <= w < next_chosen.len() && next_chosen[w] == x as usize;
                            assert(w < position);
                            assert(chosen[w] == x as usize);
                        }
                        if chosen.contains(x as usize) {
                            let w = choose|w: int| 0 <= w < chosen.len() && chosen[w] == x as usize;
                            assert(next_chosen[w] == x as usize);
                        }
                    }
                }
            }
            let ghost before = result@;
            generate_range_orders(contracted, ranges, position + 1, used, current, result, Ghost(next_chosen));
            let _ = current.pop();
            used.set(index, false);
            assert(current@ =~= original_current);
            assert(used@ =~= original_used);
            proof {
                assert forall|k: int| start.len() <= k < result.len() implies is_range_order(
                    contracted@,
                    ranges@,
                    (#[trigger] result@[k])@,
                ) by {
                    if k < before.len() {
                        assert(result@[k] == before[k]);
                    }
                }
                assert forall|k: int| start.len() <= k < result.len() implies (#[trigger] result@[k])@.len() == n
                    && result@[k]@.subrange(0, position as int) == original_current && exists|x: int|
                    0 <= x < index + 1 && result@[k]@[position as int] == contracted@[x] by {
                    if k < before.len() {
                        assert(result@[k] == before[k]);
                    } else {
                        assert(result@[k]@.subrange(0, position + 1) == original_current.push(contracted@[index as int]));
                        assert(result@[k]@.subrange(0, position as int) =~= result@[k]@.subrange(0, position + 1).subrange(0, position as int));
                        assert(result@[k]@[position as int] == result@[k]@.subrange(0, position + 1)[position as int]);
                    }
                }
                if contracted@.no_duplicates() {
                    assert forall|a: int, b: int| start.len() <= a < b < result.len() implies #[trigger] result@[a]@ != #[trigger] result@[b]@ by {
                        if b < before.len() {
                            assert(result@[a] == before[a] && result@[b] == before[b]);
                        } else if a >= before.len() {
                        } else {
                            assert(result@[a] == before[a]);
                            let x = choose|x: int| 0 <= x < index && before[a]@[position as int] == contracted@[x];
                            assert(result@[b]@.subrange(0, position + 1) == original_current.push(contracted@[index as int]));
                            assert(result@[b]@[position as int] == result@[b]@.subrange(0, position + 1)[position as int]);
                            assert(contracted@[x] != contracted@[index as int]);
                        }
                    }
                }
                assert forall|p: Seq<usize>| #[trigger] fits_ranges(contracted@, ranges@, p) && crate::state::intermediate::agrees_below(
                    p,
                    chosen,
                    position as int,
                ) && p[position as int] < index + 1 implies lists_order(result@, start.len() as int, arranged(contracted@, p)) by {
                    if p[position as int] < index {
                        let k = choose|k: int| start.len() <= k < before.len() && #[trigger] before[k]@ == arranged(contracted@, p);
                        assert(result@[k] == before[k]);
                    } else {
                        assert(crate::state::intermediate::agrees_below(p, next_chosen, position + 1));
                        let k = choose|k: int| before.len() <= k < result.len() && #[trigger] result@[k]@ == arranged(contracted@, p);
                        assert(start.len() <= k);
                    }
                }
            }
        } else {
            proof {
                assert forall|p: Seq<usize>| #[trigger] fits_ranges(contracted@, ranges@, p) && crate::state::intermediate::agrees_below(
                    p,
                    chosen,
                    position as int,
                ) && p[position as int] < index + 1 implies lists_order(result@, start.len() as int, arranged(contracted@, p)) by {
                    if p[position as int] == index {
                        if used@[index as int] {
                            let w = choose|w: int| 0 <= w < chosen.len() && chosen[w] == index;
                            assert(p[w] == chosen[w]);
                            assert(p[w] == p[position as int]);
                        }
                        assert(contracted@[p[position as int] as int].range == ranges@[position as int]);
                    }
                }
            }
        }
        index = index + 1;
    }
    proof {
        assert forall|p: Seq<usize>| #[trigger] fits_ranges(contracted@, ranges@, p) && crate::state::intermediate::agrees_below(
            p,
            chosen,
            position as int,
        ) implies lists_order(result@, start.len() as int, arranged(contracted@, p)) by {
            assert(p[position as int] < n);
        }
    }
}

/// Orders of a rearrangement of `indices` are orders of `indices` itself.
proof fn lemma_orders_of_arrangement(
    indices: Seq<Index>,
    sorting: Seq<usize>,
    ranges: Seq<crate::repr::RangeId>,
    orders: Seq<Vec<Index>>,
)
    requires
        crate::valid::perm_valid(sorting, indices.len()),
        indices.len() <= usize::MAX,
        ranges.len() == indices.len(),
        lists_range_orders(arranged(indices, sorting), ranges, orders),
    ensures
        lists_range_orders(indices, ranges, orders),
{
    let n = indices.len();
    let sorted = arranged(indices, sorting);
    assert forall|i: int| 0 <= i < orders.len() implies is_range_order(indices, ranges, (#[trigger] orders[i])@) by {
        let q = choose|q: Seq<usize>| #[trigger] fits_ranges(sorted, ranges, q) && orders[i]@ == arranged(sorted, q);
        let p = Seq::new(n, |j: int| sorting[q[j] as int]);
        assert(crate::valid::perm_valid(p, n)) by {
            assert forall|a: int, b: int| 0 <= a < n && 0 <= b < n && a != b implies #[trigger] p[a] != #[trigger] p[b] by {
                assert(q[a] != q[b]);
            }
            assert forall|a: int| 0 <= a < n implies #[trigger] p[a] < n by {
                assert(q[a] < n);
            }
        }
        assert forall|j: int| 0 <= j < n implies (#[trigger] indices[p[j] as int]).range == ranges[j] by {
            assert(q[j] < n);
            assert(sorted[q[j] as int] == indices[sorting[q[j] as int] as int]);
            assert(sorted[q[j] as int].range == ranges[j]);
        }
        assert(fits_ranges(indices, ranges, p));
        assert(orders[i]@ =~= arranged(indices, p)) by {
            assert forall|j: int| 0 <= j < n implies orders[i]@[j] == arranged(indices, p)[j] by {
                assert(q[j] < n);
                assert(arranged(sorted, q)[j] == sorted[q[j] as int]);
            }
        }
    }
    assert forall|p: Seq<usize>| #[trigger] fits_ranges(indices, ranges, p) implies lists_order(orders, 0, arranged(indices, p)) by {
        let q = Seq::new(n, |j: int| choose|i: int| 0 <= i < n && sorting[i] == p[j]);
        assert forall|j: int| 0 <= j < n implies 0 <= #[trigger] q[j] < n && sorting[q[j]] == p[j] by {
            assert(p[j] < n);
            crate::count::lemma_perm_onto(sorting, n, p[j] as int);
            let i = choose|i: int| 0 <= i < n && #[trigger] sorting[i] == p[j];
            assert(0 <= i < n && sorting[i] == p[j]);
        }
        let qu = Seq::new(n, |j: int| q[j] as usize);
        assert forall|j: int| 0 <= j < n implies #[trigger] qu[j] == q[j] && qu[j] < n && sorting[qu[j] as int] == p[j] by {
            assert(0 <= q[j] < n);
        }
        assert(crate::valid::perm_valid(qu, n)) by {
            assert forall|a: int, b: int| 0 <= a < n && 0 <= b < n && a != b implies #[trigger] qu[a] != #[trigger] qu[b] by {
                assert(p[a] != p[b]);
                assert(sorting[qu[a] as int] == p[a] && sorting[qu[b] as int] == p[b]);
            }
            assert forall|a: int| 0 <= a < n implies #[trigger] qu[a] < n by {
                assert(qu[a] == q[a]);
            }
        }
        assert forall|j: int| 0 <= j < n implies (#[trigger] sorted[qu[j] as int]).range == ranges[j] by {
            assert(qu[j] == q[j] && qu[j] < n);
            assert(sorted[qu[j] as int] == indices[sorting[qu[j] as int] as int]);
            assert(indices[p[j] as int].range == ranges[j]);
        }
        assert(fits_ranges(sorted, ranges, qu));
        let k = choose|k: int| 0 <= k < orders.len() && #[trigger] orders[k]@ == arranged(sorted, qu);
        assert(arranged(sorted, qu) =~= arranged(indices, p)) by {
            assert forall|j: int| 0 <= j < n implies arranged(sorted, qu)[j] == arranged(indices, p)[j] by {
                assert(qu[j] == q[j] && qu[j] < n);
                assert(sorted[qu[j] as int] == indices[sorting[qu[j] as int] as int]);
            }
        }
    }
}

/// Every order of the contracted indices in which each position keeps the
/// range it has when the indices are sorted by range and then identity.
pub fn contracted_orders(contracted: &[Index]) -> (r: Vec<Vec<Index>>)
    ensures
        distinct_ids(contracted@) ==> forall|a: int, b: int| 0 <= a < b < r.len() ==> #[trigger] r@[a]@ != #[trigger] r@[b]@,
        forall|k: int| 0 <= k < r.len() ==> (#[trigger] r@[k])@.len() == contracted.len()
            && forall|j: int| 0 <= j < contracted.len() ==> contracted@.contains(#[trigger] r@[k]@[j]),
        exists|sorting: Seq<usize>| #[trigger] crate::valid::perm_valid(sorting, contracted.len() as nat)
            && by_range_then_id(arranged(contracted@, sorting)) && lists_range_orders(
            contracted@,
            ranges_of(arranged(contracted@, sorting)),
            r@,
        ),
{
    let ghost n = contracted.len();
    let (sorted, Ghost(sorting)) = sort_by_range_then_id(contracted);
    let mut ranges: Vec<crate::repr::RangeId> = Vec::new();
    let mut used: Vec<bool> = Vec::new();
    let mut j: usize = 0;
    while j < sorted.len()
        invariant
            j <= sorted.len(),
            ranges.len() == j,
            used.len() == j,
            forall|i: int| 0 <= i < j ==> #[trigger] ranges@[i] == sorted@[i].range,
            forall|i: int| 0 <= i < j ==> !#[trigger] used@[i],
        decreases sorted.len() - j,
    {
        ranges.push(sorted[j].range);
        used.push(false);
        j = j + 1;
    }
    let mut current: Vec<Index> = Vec::new();
    let mut result: Vec<Vec<Index>> = Vec::new();
    proof {
        assert forall|x: int| 0 <= x < sorted.len() implies #[trigger] used@[x] == Seq::<usize>::empty().contains(x as usize) by {}
    }
    proof {
        if distinct_ids(contracted@) {
            assert forall|a: int, b: int| 0 <= a < sorted@.len() && 0 <= b < sorted@.len() && a != b implies sorted@[a] != sorted@[b] by {
                assert(sorted@[a] == contracted@[sorting[a] as int]);
                assert(sorted@[b] == contracted@[sorting[b] as int]);
                assert(sorting[a] != sorting[b]);
            }
            assert(sorted@.no_duplicates());
        }
    }
    generate_range_orders(&sorted, &ranges, 0, &mut used, &mut current, &mut result, Ghost(Seq::empty()));
    proof {
        assert(ranges@ =~= ranges_of(sorted@));
        assert forall|p: Seq<usize>| #[trigger] fits_ranges(sorted@, ranges@, p) implies lists_order(
            result@,
            0,
            arranged(sorted@, p),
        ) by {
            assert(crate::state::intermediate::agrees_below(p, Seq::<usize>::empty(), 0));
        }
        assert(lists_range_orders(sorted@, ranges@, result@));
        lemma_orders_of_arrangement(contracted@, sorting, ranges@, result@);
        assert forall|i: int| 0 <= i < result.len() implies (#[trigger] result@[i])@.len() == contracted.len()
            && forall|j: int| 0 <= j < contracted.len() ==> contracted@.contains(#[trigger] result@[i]@[j]) by {
            assert(is_range_order(contracted@, ranges@, result@[i]@));
            let p = choose|p: Seq<usize>| #[trigger] fits_ranges(contracted@, ranges@, p) && result@[i]@ == arranged(
                contracted@,
                p,
            );
            assert forall|j: int| 0 <= j < contracted.len() implies contracted@.contains(#[trigger] result@[i]@[j]) by {
                assert(result@[i]@[j] == contracted@[p[j] as int]);
                assert(p[j] < n);
            }
        }
    }
    result
}

/// The indices sorted by range and then identity, equal keys keeping their
/// order, with the positions they came from.
fn sort_by_range_then_id(contracted: &[Index]) -> (r: (Vec<Index>, Ghost<Seq<usize>>))
    ensures
        crate::valid::perm_valid(r.1@, contracted.len() as nat),
        r.0@ == arranged(contracted@, r.1@),
        by_range_then_id(r.0@),
{
    let ghost n = contracted.len();
    let mut sorted: Vec<Index> = Vec::new();
    let ghost mut sorting: Seq<usize> = Seq::empty();
    let mut k: usize = 0;
    while k < contracted.len()
        invariant
            k <= contracted.len(),
            n == contracted.len(),
            sorted.len() == k,
            sorting.len() == k,
            sorting.no_duplicates(),
            forall|j: int| 0 <= j < k ==> #[trigger] sorting[j] < k && sorted@[j] == contracted@[sorting[j] as int],
            by_range_then_id(sorted@),
        decreases contracted.len() - k,
    {
        let index = contracted[k];
        let mut at: usize = 0;
        while at < sorted.len() && (sorted[at].range.0 < index.range.0 || (sorted[at].range.0 == index.range.0
            && sorted[at].id.0 <= index.id.0))
            invariant
                at <= sorted.len(),
                forall|j: int| 0 <= j < at ==> (#[trigger] sorted@[j]).range.0 < index.range.0 || (sorted@[j].range.0
                    == index.range.0 && sorted@[j].id.0 <= index.id.0),
            decreases sorted.len() - at,
        {
            at = at + 1;
        }
        let ghost before = sorted@;
        let ghost before_sorting = sorting;
        sorted.insert(at, index);
        proof {
            sorting = before_sorting.insert(at as int, k as usize);
            assert forall|j: int| at < j < sorted.len() implies (#[trigger] sorted@[j]).range.0 > index.range.0 || (sorted@[j].range.0
                == index.range.0 && sorted@[j].id.0 > index.id.0) by {
                assert(sorted@[j] == before[j - 1]);
                assert(before[at as int] == sorted@[at + 1]);
                if j - 1 > at {
                    assert(before[at as int].range.0 < before[j - 1].range.0 || (before[at as int].range.0 == before[j - 1].range.0
                        && before[at as int].id.0 <= before[j - 1].id.0));
                }
            }
            assert forall|a: int, b: int| 0 <= a < b < sorted.len() implies (#[trigger] sorted@[a]).range.0 < (
            #[trigger] sorted@[b]).range.0 || (sorted@[a].range.0 == sorted@[b].range.0 && sorted@[a].id.0 <= sorted@[b].id.0) by {
                if b < at {
                    assert(sorted@[a] == before[a] && sorted@[b] == before[b]);
                } else if b == at {
                    assert(sorted@[a] == before[a]);
                } else if a > at {
                    assert(sorted@[a] == before[a - 1] && sorted@[b] == before[b - 1]);
                } else if a == at {
                } else {
                    assert(sorted@[a] == before[a]);
                    assert(sorted@[b] == before[b - 1]);
                    assert(sorted@[at as int] == index);
                }
            }
            assert forall|j: int| 0 <= j < k + 1 implies #[trigger] sorting[j] < k + 1 && sorted@[j] == contracted@[sorting[j] as int] by {
                if j < at {
                    assert(sorting[j] == before_sorting[j]);
                } else if j > at {
                    assert(sorting[j] == before_sorting[j - 1]);
                }
            }
            assert(sorting.no_duplicates()) by {
                assert forall|a: int, b: int| 0 <= a < sorting.len() && 0 <= b < sorting.len() && a != b implies sorting[a] != sorting[b] by {
                    let oa = if a < at { a } else { a - 1 };
                    let ob = if b < at { b } else { b - 1 };
                    if a != at as int && b != at as int {
                        assert(sorting[a] == before_sorting[oa]);
                        assert(sorting[b] == before_sorting[ob]);
                    } else if a == at as int {
                        assert(sorting[b] == before_sorting[ob]);
                        assert(before_sorting[ob] < k);
                    } else {
                        assert(sorting[a] == before_sorting[oa]);
                        assert(before_sorting[oa] < k);
                    }
                }
            }
        }
        k = k + 1;
    }
    proof {
        assert(crate::valid::perm_valid(sorting, n as nat)) by {
            assert forall|a: int, b: int| 0 <= a < n && 0 <= b < n && a != b implies #[trigger] sorting[a] != #[trigger] sorting[b] by {}
        }
        assert(sorted@ =~= arranged(contracted@, sorting));
    }
    (sorted, Ghost(sorting))
}

// ----------------------------------------------------------------------------
// Aligning a child to a scope
// ----------------------------------------------------------------------------

/// The scope lists distinct identities, the term's summed identities are
/// distinct and apart from the scope, and every factor index is in one of
/// the two.
pub open spec fn aligned_ok(scope: Seq<Index>, term: TermView) -> bool {
    &&& distinct_ids(scope)
    &&& distinct_ids(term.sums)
    &&& forall|k: int| 0 <= k < term.sums.len() ==> !has_id(scope, (#[trigger] term.sums[k]).id)
    &&& forall|f: int, k: int|
        0 <= f < term.factors.len() && 0 <= k < term.factors[f].indices.len() ==> has_id(scope, #[trigger] term.factors[f].indices[k])
            || has_id(term.sums, term.factors[f].indices[k])
}

fn position_in(indices: &[Index], id: IndexId) -> (r: Option<usize>)
    ensures
        r is None <==> !has_id(indices@, id),
        r matches Some(p) ==> p < indices.len() && indices@[p as int].id == id && forall|q: int| 0 <= q < p ==> indices@[q].id != id,
{
    assert(indices@.subrange(0, indices.len() as int) =~= indices@);
    position_before(indices, indices.len(), id)
}

fn position_before(indices: &[Index], end: usize, id: IndexId) -> (r: Option<usize>)
    requires
        end <= indices.len(),
    ensures
        r is None <==> !has_id(indices@.subrange(0, end as int), id),
        r matches Some(p) ==> p < end && indices@[p as int].id == id && forall|q: int| 0 <= q < p ==> indices@[q].id != id,
{
    let mut p: usize = 0;
    while p < end
        invariant
            p <= end <= indices.len(),
            forall|q: int| 0 <= q < p ==> (#[trigger] indices@[q]).id != id,
        decreases end - p,
    {
        if indices[p].id == id {
            proof {
                assert(indices@.subrange(0, end as int)[p as int] == indices@[p as int]);
            }
            return Some(p);
        }
        p = p + 1;
    }
    proof {
        if has_id(indices@.subrange(0, end as int), id) {
            let q = choose|q: int| 0 <= q < end && (#[trigger] indices@.subrange(0, end as int)[q]).id == id;
            assert(indices@.subrange(0, end as int)[q] == indices@[q]);
        }
        if end == indices.len() {
            assert(indices@.subrange(0, end as int) =~= indices@);
        }
    }
    None
}

/// Number the scope by position and the term's summed indices after it, and
/// rename the term's factor indices accordingly.
#[verifier::loop_isolation(false)]
#[verifier::rlimit(40)]
pub fn align_term(scope: &[Index], term: &Term) -> (r: Result<(Vec<Index>, Term), CanonError>)
    ensures
        aligned_ok(scope@, term@) && scope.len() + term.sums.len() <= u32::MAX + 1 ==> r is Ok,
        r matches Ok(v) ==> aligned_ok(scope@, term@) && positional_exts(scope@, v.0@) && renames_to_positions(scope@, term@, v.1@),
        r matches Err(e) ==> {
            ||| e is DuplicateFixedIndex && !distinct_ids(scope@)
            ||| e is DuplicateSummedIndex && !distinct_ids(term@.sums)
            ||| e is FixedAndSummedIndexOverlap && exists|k: int| 0 <= k < term.sums.len() && has_id(scope@, #[trigger] term@.sums[k].id)
            ||| e is UnknownIndex && !aligned_ok(scope@, term@)
            ||| e is ExhaustedIndexIds && scope.len() + term.sums.len() > u32::MAX + 1
        },
{
    let mut fixed: Vec<Index> = Vec::new();
    let mut position: usize = 0;
    while position < scope.len()
        invariant
            position <= scope.len(),
            fixed.len() == position,
            forall|k: int| 0 <= k < position ==> (#[trigger] fixed@[k]).id.0 == k && fixed@[k].range == scope@[k].range,
            forall|a: int, b: int| 0 <= a < position && 0 <= b < position && a != b ==> (#[trigger] scope@[a]).id != (#[trigger] scope@[b]).id,
        decreases scope.len() - position,
    {
        let id = index_id(position)?;
        let index = scope[position];
        match position_before(scope, position, index.id) {
            Some(p) => {
                proof {
                    assert(scope@[p as int].id == scope@[position as int].id);
                }
                return Err(CanonError::DuplicateFixedIndex { index: index.id });
            },
            None => {},
        }
        proof {
            assert forall|a: int| 0 <= a < position implies scope@[a].id != index.id by {
                assert(scope@.subrange(0, position as int)[a] == scope@[a]);
            }
        }
        fixed.push(Index { id, range: index.range });
        position = position + 1;
    }
    let n = scope.len();
    let mut sums: Vec<Index> = Vec::new();
    let mut j: usize = 0;
    while j < term.sums.len()
        invariant
            j <= term.sums.len(),
            sums.len() == j,
            distinct_ids(scope@),
            forall|x: int| 0 <= x < j ==> (#[trigger] sums@[x]).id.0 == n + x && sums@[x].range == term.sums@[x].range,
            forall|a: int, b: int| 0 <= a < j && 0 <= b < j && a != b ==> (#[trigger] term.sums@[a]).id != (#[trigger] term.sums@[b]).id,
            forall|x: int| 0 <= x < j ==> !has_id(scope@, (#[trigger] term.sums@[x]).id),
        decreases term.sums.len() - j,
    {
        let sum = term.sums[j];
        match position_before(term.sums.as_slice(), j, sum.id) {
            Some(p) => {
                proof {
                    assert(term.sums@[p as int].id == term.sums@[j as int].id);
                }
                return Err(CanonError::DuplicateSummedIndex { index: sum.id });
            },
            None => {},
        }
        proof {
            assert forall|a: int| 0 <= a < j implies term.sums@[a].id != sum.id by {
                assert(term.sums@.subrange(0, j as int)[a] == term.sums@[a]);
            }
        }
        if crate::canon::contains_id(scope, sum.id) {
            proof {
                assert(term@.sums[j as int] == term.sums@[j as int]);
                assert(has_id(scope@, term@.sums[j as int].id));
            }
            return Err(CanonError::FixedAndSummedIndexOverlap { index: sum.id });
        }
        if n > usize::MAX - j {
            return Err(CanonError::ExhaustedIndexIds);
        }
        let id = index_id(n + j)?;
        sums.push(Index { id, range: sum.range });
        j = j + 1;
    }
    let mut factors: Vec<TensorRef> = Vec::new();
    let mut f: usize = 0;
    while f < term.factors.len()
        invariant
            f <= term.factors.len(),
            factors.len() == f,
            sums.len() == term.sums.len(),
            distinct_ids(scope@),
            distinct_ids(term.sums@),
            forall|x: int| 0 <= x < term.sums.len() ==> !has_id(scope@, (#[trigger] term.sums@[x]).id),
            forall|x: int| 0 <= x < term.sums.len() ==> (#[trigger] sums@[x]).id.0 == n + x && sums@[x].range == term.sums@[x].range,
            forall|g: int, k: int| 0 <= g < f && 0 <= k < term.factors@[g].indices.len() ==> has_id(scope@, #[trigger] term.factors@[g].indices@[k])
                || has_id(term.sums@, term.factors@[g].indices@[k]),
            forall|g: int| 0 <= g < f ==> {
                &&& (#[trigger] factors@[g]).tensor == term.factors@[g].tensor
                &&& factors@[g].indices.len() == term.factors@[g].indices.len()
                &&& forall|k: int, x: int|
                    #![trigger term.factors@[g].indices@[k], term.sums@[x]]
                    0 <= k < factors@[g].indices.len() && 0 <= x < term.sums.len()
                        && term.factors@[g].indices@[k] == term.sums@[x].id
                        ==> factors@[g].indices@[k].0 == n + x
                &&& forall|k: int, y: int|
                    #![trigger term.factors@[g].indices@[k], scope@[y]]
                    0 <= k < factors@[g].indices.len() && 0 <= y < n
                        && term.factors@[g].indices@[k] == scope@[y].id
                        ==> factors@[g].indices@[k].0 == y
            },
        decreases term.factors.len() - f,
    {
        let factor = &term.factors[f];
        let mut indices: Vec<IndexId> = Vec::new();
        let mut k: usize = 0;
        while k < factor.indices.len()
            invariant
                f < term.factors.len(),
                k <= factor.indices.len(),
                indices.len() == k,
                forall|y: int| 0 <= y < k ==> has_id(scope@, #[trigger] factor.indices@[y]) || has_id(term.sums@, factor.indices@[y]),
                forall|y: int, x: int|
                    #![trigger factor.indices@[y], term.sums@[x]]
                    0 <= y < k && 0 <= x < term.sums.len() && factor.indices@[y] == term.sums@[x].id ==> indices@[y].0 == n + x,
                forall|y: int, e: int|
                    #![trigger factor.indices@[y], scope@[e]]
                    0 <= y < k && 0 <= e < n && factor.indices@[y] == scope@[e].id ==> indices@[y].0 == e,
            decreases factor.indices.len() - k,
        {
            let index = factor.indices[k];
            let id = match position_in(scope, index) {
                Some(p) => {
                    proof {
                        assert forall|e: int| 0 <= e < n && scope@[e].id == index implies p == e by {
                            if e != p {
                                assert(scope@[e].id != scope@[p as int].id);
                            }
                        }
                        assert forall|x: int| 0 <= x < term.sums.len() && term.sums@[x].id == index implies false by {
                            assert(!has_id(scope@, term.sums@[x].id));
                        }
                    }
                    fixed[p].id
                },
                None => {
                    match position_in(term.sums.as_slice(), index) {
                        Some(x) => {
                            proof {
                                assert forall|y: int| 0 <= y < term.sums.len() && term.sums@[y].id == index implies x == y by {
                                    if y != x {
                                        assert(term.sums@[y].id != term.sums@[x as int].id);
                                    }
                                }
                            }
                            sums[x].id
                        },
                        None => {
                            proof {
                                assert(!aligned_ok(scope@, term@)) by {
                                    assert(term@.factors[f as int] == factor@);
                                    assert(term@.factors[f as int].indices[k as int] == index);
                                }
                            }
                            return Err(CanonError::UnknownIndex { index });
                        },
                    }
                },
            };
            indices.push(id);
            k = k + 1;
        }
        let ghost before = factors@;
        factors.push(TensorRef { tensor: factor.tensor, indices });
        proof {
            assert forall|g: int| 0 <= g < f + 1 implies {
                &&& (#[trigger] factors@[g]).tensor == term.factors@[g].tensor
                &&& factors@[g].indices.len() == term.factors@[g].indices.len()
                &&& forall|k: int, x: int|
                    #![trigger term.factors@[g].indices@[k], term.sums@[x]]
                    0 <= k < factors@[g].indices.len() && 0 <= x < term.sums.len()
                        && term.factors@[g].indices@[k] == term.sums@[x].id
                        ==> factors@[g].indices@[k].0 == n + x
                &&& forall|k: int, y: int|
                    #![trigger term.factors@[g].indices@[k], scope@[y]]
                    0 <= k < factors@[g].indices.len() && 0 <= y < n
                        && term.factors@[g].indices@[k] == scope@[y].id
                        ==> factors@[g].indices@[k].0 == y
            } by {
                if g < f {
                    assert(factors@[g] == before[g]);
                } else {
                    assert(term.factors@[g] == factor);
                    assert forall|k: int, x: int|
                        #![trigger term.factors@[g].indices@[k], term.sums@[x]]
                        0 <= k < factors@[g].indices.len() && 0 <= x < term.sums.len()
                            && term.factors@[g].indices@[k] == term.sums@[x].id
                            implies factors@[g].indices@[k].0 == n + x by {
                        assert(factor.indices@[k] == term.factors@[g].indices@[k]);
                    }
                    assert forall|k: int, y: int|
                        #![trigger term.factors@[g].indices@[k], scope@[y]]
                        0 <= k < factors@[g].indices.len() && 0 <= y < n
                            && term.factors@[g].indices@[k] == scope@[y].id
                            implies factors@[g].indices@[k].0 == y by {
                        assert(factor.indices@[k] == term.factors@[g].indices@[k]);
                    }
                }
            }
            assert forall|g: int, k: int| 0 <= g < f + 1 && 0 <= k < term.factors@[g].indices.len() implies has_id(scope@, #[trigger] term.factors@[g].indices@[k])
                || has_id(term.sums@, term.factors@[g].indices@[k]) by {
                if g == f {
                    assert(term.factors@[g] == factor);
                }
            }
        }
        f = f + 1;
    }
    let aligned = Term { sums, coeff: term.coeff.clone(), factors };
    proof {
        let t = aligned@;
        assert forall|f: int, k: int|
            0 <= f < term@.factors.len() && 0 <= k < term@.factors[f].indices.len() implies has_id(scope@, #[trigger] term@.factors[f].indices[k])
                || has_id(term@.sums, term@.factors[f].indices[k]) by {
            assert(term@.factors[f] == term.factors@[f]@);
        }
        assert(aligned_ok(scope@, term@));
        assert forall|g: int| 0 <= g < t.factors.len() implies (#[trigger] t.factors[g]).tensor == term@.factors[g].tensor
            && t.factors[g].indices.len() == term@.factors[g].indices.len() by {
            assert(t.factors[g] == factors@[g]@);
            assert(term@.factors[g] == term.factors@[g]@);
        }
        assert forall|g: int, k: int, x: int|
            #![trigger term@.factors[g].indices[k], term@.sums[x]]
            0 <= g < t.factors.len() && 0 <= k < term@.factors[g].indices.len() && 0 <= x
                < term@.sums.len() && term@.factors[g].indices[k] == term@.sums[x].id
                implies t.factors[g].indices[k].0 == scope@.len() + x by {
            assert(t.factors[g] == factors@[g]@);
            assert(term@.factors[g] == term.factors@[g]@);
            assert(term.factors@[g].indices@[k] == term.sums@[x].id);
        }
        assert forall|g: int, k: int, y: int|
            #![trigger term@.factors[g].indices[k], scope@[y]]
            0 <= g < t.factors.len() && 0 <= k < term@.factors[g].indices.len() && 0 <= y
                < scope@.len() && term@.factors[g].indices[k] == scope@[y].id
                implies t.factors[g].indices[k].0 == y by {
            assert(t.factors[g] == factors@[g]@);
            assert(term@.factors[g] == term.factors@[g]@);
            assert(term.factors@[g].indices@[k] == scope@[y].id);
        }
        assert(renames_to_positions(scope@, term@, t));
    }
    Ok((fixed, aligned))
}

/// The aligned counterparts, in scope order, of the scope entries that
/// `selected` lists by identity.
pub open spec fn aligned_selection(scope: Seq<Index>, fixed: Seq<Index>, selected: Seq<Index>, n: nat) -> Seq<Index>
    decreases n,
{
    if n == 0 {
        Seq::empty()
    } else {
        let prev = aligned_selection(scope, fixed, selected, (n - 1) as nat);
        if has_id(selected, scope[n - 1].id) {
            prev.push(fixed[n - 1])
        } else {
            prev
        }
    }
}

/// Map selected scope indices to their aligned counterparts; an index that
/// the scope lacks is reported.
pub fn align_exts(scope: &[Index], fixed: &[Index], selected: &[Index]) -> (r: Result<Vec<Index>, CanonError>)
    ensures
        (forall|k: int| 0 <= k < selected.len() ==> has_id(scope@, (#[trigger] selected@[k]).id)) <==> r is Ok,
        r matches Err(e) ==> e is UnknownIndex,
        r matches Ok(v) ==> v@ == aligned_selection(scope@, fixed@, selected@, if scope.len() <= fixed.len() { scope.len() as nat } else { fixed.len() as nat }),
{
    let mut k: usize = 0;
    while k < selected.len()
        invariant
            k <= selected.len(),
            forall|j: int| 0 <= j < k ==> has_id(scope@, (#[trigger] selected@[j]).id),
        decreases selected.len() - k,
    {
        if !crate::canon::contains_id(scope, selected[k].id) {
            return Err(CanonError::UnknownIndex { index: selected[k].id });
        }
        k = k + 1;
    }
    let n = if scope.len() <= fixed.len() {
        scope.len()
    } else {
        fixed.len()
    };
    let mut r: Vec<Index> = Vec::new();
    let mut p: usize = 0;
    while p < n
        invariant
            p <= n,
            n <= scope.len(),
            n <= fixed.len(),
            r@ =~= aligned_selection(scope@, fixed@, selected@, p as nat),
        decreases n - p,
    {
        if crate::canon::contains_id(selected, scope[p].id) {
            r.push(fixed[p]);
        }
        p = p + 1;
    }
    Ok(r)
}

// ----------------------------------------------------------------------------
// Canonical splits
// ----------------------------------------------------------------------------

/// The order of two candidates for an owner: the owning child's summed
/// indices and factors first, then the other child's.
pub open spec fn candidate_order(left: BipartitionView, right: BipartitionView, owner: Owner) -> int {
    let (own, other) = match owner {
        Owner::Left => (
            crate::canon::sums_and_factors_order(left.left, right.left),
            crate::canon::sums_and_factors_order(left.right, right.right),
        ),
        Owner::Right => (
            crate::canon::sums_and_factors_order(left.right, right.right),
            crate::canon::sums_and_factors_order(left.left, right.left),
        ),
    };
    if own != 0 {
        own
    } else {
        other
    }
}

/// Order two candidates by the owning child's body, then the other child's.
fn compare_candidate(left: &TermBipartition, right: &TermBipartition, owner: Owner) -> (r: i8)
    ensures
        -1 <= r <= 1,
        r == candidate_order(left@, right@, owner),
{
    match owner {
        Owner::Left => {
            let order = compare_sums_and_factors(&left.left, &right.left);
            if order != 0 {
                order
            } else {
                compare_sums_and_factors(&left.right, &right.right)
            }
        },
        Owner::Right => {
            let order = compare_sums_and_factors(&left.right, &right.right);
            if order != 0 {
                order
            } else {
                compare_sums_and_factors(&left.left, &right.left)
            }
        },
    }
}

/// Swapping two candidates negates their order.
proof fn lemma_candidate_order_swap(a: BipartitionView, b: BipartitionView, owner: Owner)
    ensures
        candidate_order(a, b, owner) == -candidate_order(b, a, owner),
{
    crate::canon::lemma_sums_factors_swap(a.left, b.left);
    crate::canon::lemma_sums_factors_swap(a.right, b.right);
}

/// The order of candidates is transitive.
proof fn lemma_candidate_order_trans(a: BipartitionView, b: BipartitionView, c: BipartitionView, owner: Owner)
    requires
        candidate_order(a, b, owner) <= 0,
        candidate_order(b, c, owner) <= 0,
    ensures
        candidate_order(a, c, owner) <= 0,
{
    let (x, y, z) = match owner {
        Owner::Left => (a.left, b.left, c.left),
        Owner::Right => (a.right, b.right, c.right),
    };
    let (x2, y2, z2) = match owner {
        Owner::Left => (a.right, b.right, c.right),
        Owner::Right => (a.left, b.left, c.left),
    };
    crate::canon::lemma_sums_factors_swap(x, y);
    crate::canon::lemma_sums_factors_swap(y, z);
    crate::canon::lemma_sums_factors_swap(x, z);
    let (o1, o2) = (crate::canon::sums_and_factors_order(x, y), crate::canon::sums_and_factors_order(y, z));
    if o1 == 0 {
        crate::canon::lemma_sums_factors_zero(x, y);
    }
    if o2 == 0 {
        crate::canon::lemma_sums_factors_zero(y, z);
    }
    if o1 < 0 && o2 < 0 || o1 < 0 && o2 == 0 || o1 == 0 && o2 < 0 {
        crate::canon::lemma_sums_factors_trans(x, y, z);
        if crate::canon::sums_and_factors_order(x, z) == 0 {
            crate::canon::lemma_sums_factors_zero(x, z);
        }
    } else if o1 == 0 && o2 == 0 {
        crate::canon::lemma_sums_factors_trans(x2, y2, z2);
    }
}

/// The candidate at `i` is least for the owner.
pub open spec fn least_candidate(candidates: Seq<TermBipartition>, owner: Owner, i: int) -> bool {
    &&& 0 <= i < candidates.len()
    &&& forall|k: int| 0 <= k < candidates.len() ==> candidate_order((#[trigger] candidates[k])@, candidates[i]@, owner) >= 0
}

/// Two candidates that order equal carry different left coefficients.
pub open spec fn coefficient_conflict(candidates: Seq<TermBipartition>, owner: Owner, i: int, k: int) -> bool {
    &&& 0 <= k < candidates.len()
    &&& candidate_order(candidates[k]@, candidates[i]@, owner) == 0
    &&& candidates[k]@.left.coeff != candidates[i]@.left.coeff
}

/// The first least candidate for an owner, unless a candidate that orders
/// equal to it carries a different left coefficient.
fn choose_candidate(candidates: &Vec<TermBipartition>, owner: Owner) -> (r: Option<TermBipartition>)
    requires
        candidates.len() > 0,
    ensures
        r matches Some(c) ==> exists|i: int| 0 <= i < candidates.len() && c@ == (#[trigger] candidates@[i])@,
        r matches Some(c) ==> exists|i: int|
            #[trigger] least_candidate(candidates@, owner, i) && c@ == candidates@[i]@ && forall|k: int|
                !#[trigger] coefficient_conflict(candidates@, owner, i, k),
        r is None ==> exists|i: int, k: int|
            #[trigger] least_candidate(candidates@, owner, i) && #[trigger] coefficient_conflict(candidates@, owner, i, k),
{
    let mut best: usize = 0;
    let mut k: usize = 1;
    proof {
        crate::canon::lemma_sums_factors_swap(candidates@[0]@.left, candidates@[0]@.left);
        crate::canon::lemma_sums_factors_swap(candidates@[0]@.right, candidates@[0]@.right);
    }
    while k < candidates.len()
        invariant
            1 <= k <= candidates.len(),
            best < candidates.len(),
            forall|j: int| 0 <= j < k ==> candidate_order((#[trigger] candidates@[j])@, candidates@[best as int]@, owner) >= 0,
        decreases candidates.len() - k,
    {
        if compare_candidate(&candidates[k], &candidates[best], owner) < 0 {
            proof {
                let old_best = best as int;
                assert forall|j: int| 0 <= j < k + 1 implies candidate_order((#[trigger] candidates@[j])@, candidates@[k as int]@, owner) >= 0 by {
                    lemma_candidate_order_swap(candidates@[j]@, candidates@[k as int]@, owner);
                    lemma_candidate_order_swap(candidates@[j]@, candidates@[old_best]@, owner);
                    if j < k {
                        lemma_candidate_order_trans(candidates@[k as int]@, candidates@[old_best]@, candidates@[j]@, owner);
                    }
                }
            }
            best = k;
        }
        k = k + 1;
    }
    assert(least_candidate(candidates@, owner, best as int));
    let mut k: usize = 0;
    while k < candidates.len()
        invariant
            k <= candidates.len(),
            best < candidates.len(),
            least_candidate(candidates@, owner, best as int),
            forall|j: int| 0 <= j < k ==> !#[trigger] coefficient_conflict(candidates@, owner, best as int, j),
        decreases candidates.len() - k,
    {
        if compare_candidate(&candidates[k], &candidates[best], owner) == 0 && !candidates[k].left.coeff.equals(&candidates[best].left.coeff) {
            assert(coefficient_conflict(candidates@, owner, best as int, k as int));
            return None;
        }
        k = k + 1;
    }
    assert forall|j: int| !#[trigger] coefficient_conflict(candidates@, owner, best as int, j) by {
        if 0 <= j < k {
        }
    }
    let chosen = candidates[best].clone();
    assert(chosen@ == candidates@[best as int]@);
    Some(chosen)
}

/// Why canonicalizing a child term in `scope` fails with `e`: the term does
/// not fit the scope, or is invalid once renamed to positions, or (for
/// exhausted identities) the scope and summed indices overflow the
/// identities, or too few identities lie outside the positional scope.
pub open spec fn child_failure(c: crate::repr::ComputationView, scope: Seq<Index>, child: TermView, e: CanonError) -> bool {
    if e is ExhaustedIndexIds {
        ||| scope.len() + child.sums.len() > u32::MAX + 1
        ||| exists|fixed: Seq<Index>|
            #[trigger] positional_exts(scope, fixed) && crate::canon::ids_short(fixed, child.sums.len() as int)
    } else {
        ||| !aligned_ok(scope, child)
        ||| exists|fixed: Seq<Index>, t: TermView|
            #[trigger] positional_exts(scope, fixed) && #[trigger] renames_to_positions(scope, child, t)
                && !crate::valid::term_context_valid(c, fixed, t)
    }
}

/// Why canonicalizing a split in `scope` fails with `e`: a child fails, or
/// an external of a child is not in the scope.
pub open spec fn split_failure(c: crate::repr::ComputationView, scope: Seq<Index>, sp: BipartitionView, e: CanonError) -> bool {
    ||| child_failure(c, scope, sp.left, e)
    ||| child_failure(c, scope, sp.right, e)
    ||| e is UnknownIndex && !(forall|k: int| 0 <= k < sp.left_exts.len() ==> has_id(scope, (#[trigger] sp.left_exts[k]).id))
    ||| e is UnknownIndex && !(forall|k: int| 0 <= k < sp.right_exts.len() ==> has_id(scope, (#[trigger] sp.right_exts[k]).id))
}

/// `order` arranges the contracted indices of the split.
pub open spec fn split_order(sp: BipartitionView, order: Seq<Index>) -> bool {
    order.len() == sp.contracted.len() && forall|j: int| 0 <= j < order.len() ==> sp.contracted.contains(#[trigger] order[j])
}

/// `cand` is the candidate of the split under `order`: both children renamed
/// to positions of the scope of the definition's externals and the order,
/// canonicalized, the right child's coefficient moved onto the left one, and
/// the children's externals and the contracted indices taken in the scope.
pub open spec fn split_candidate(
    c: crate::repr::ComputationView,
    exts: Seq<Index>,
    sp: BipartitionView,
    order: Seq<Index>,
    cand: BipartitionView,
) -> bool {
    let scope = exts + order;
    exists|fixed: Seq<Index>, lt: TermView, rt: TermView, cl: TermView, cr: TermView|
        #![trigger crate::canon::canonical_form(c, fixed, lt, Some(cl)), crate::canon::canonical_form(c, fixed, rt, Some(cr))]
        {
            &&& positional_exts(scope, fixed)
            &&& renames_to_positions(scope, sp.left, lt)
            &&& renames_to_positions(scope, sp.right, rt)
            &&& crate::canon::canonical_form(c, fixed, lt, Some(cl))
            &&& crate::canon::canonical_form(c, fixed, rt, Some(cr))
            &&& cand == (BipartitionView {
                coeff: sp.coeff,
                left: TermView { coeff: ratio_product(cl.coeff, cr.coeff), ..cl },
                left_exts: aligned_selection(scope, fixed, sp.left_exts, scope.len()),
                right: TermView { coeff: crate::coeff::ratio_of_integer(1), ..cr },
                right_exts: aligned_selection(scope, fixed, sp.right_exts, scope.len()),
                contracted: fixed.subrange(exts.len() as int, fixed.len() as int),
            })
        }
}

/// `cand` is the candidate of the split under some order of its contracted
/// indices.
pub open spec fn split_candidate_some(
    c: crate::repr::ComputationView,
    exts: Seq<Index>,
    sp: BipartitionView,
    cand: BipartitionView,
) -> bool {
    exists|o: Seq<Index>| split_order(sp, o) && #[trigger] split_candidate(c, exts, sp, o, cand)
}

/// A child of the split canonicalizes to nothing under `order`.
pub open spec fn split_zero(c: crate::repr::ComputationView, exts: Seq<Index>, sp: BipartitionView, order: Seq<Index>) -> bool {
    let scope = exts + order;
    exists|fixed: Seq<Index>, t: TermView|
        #![trigger positional_exts(scope, fixed), crate::canon::canonical_form(c, fixed, t, None)]
        positional_exts(scope, fixed) && (renames_to_positions(scope, sp.left, t) || renames_to_positions(scope, sp.right, t))
            && crate::canon::canonical_form(c, fixed, t, None)
}

/// Two candidates of the split under orders of its contracted indices order
/// equal for an owner and carry different left coefficients.
pub open spec fn split_conflict(c: crate::repr::ComputationView, exts: Seq<Index>, sp: BipartitionView) -> bool {
    exists|o1: Seq<Index>, o2: Seq<Index>, c1: BipartitionView, c2: BipartitionView, owner: Owner|
        #![trigger split_candidate(c, exts, sp, o1, c1), split_candidate(c, exts, sp, o2, c2), candidate_order(c1, c2, owner)]
        split_order(sp, o1) && split_order(sp, o2) && split_candidate(c, exts, sp, o1, c1) && split_candidate(c, exts, sp, o2, c2)
            && candidate_order(c1, c2, owner) == 0 && c1.left.coeff != c2.left.coeff
}

/// Canonicalize both children of a split under every order of its contracted
/// indices and choose one canonical form per owner; `None` when a child is
/// zero under some order, or the choice is ambiguous.
#[verifier::loop_isolation(false)]
#[verifier::spinoff_prover]
#[verifier::rlimit(100)]
pub fn canon_split(computation: &Computation, definition_exts: &[Index], split: TermBipartition) -> (r: Result<
    Option<(TermBipartition, TermBipartition)>,
    CanonError,
>)
    ensures
        r matches Err(e) ==> exists|order: Seq<Index>|
            #[trigger] split_failure(computation@, definition_exts@ + order, split@, e) && order.len() == split@.contracted.len()
                && forall|j: int| 0 <= j < order.len() ==> split@.contracted.contains(#[trigger] order[j]),
        r matches Ok(Some(v)) ==> v.0@.coeff == split@.coeff && v.1@.coeff == split@.coeff
            && v.0@.right.coeff == crate::coeff::ratio_of_integer(1) && v.1@.right.coeff
            == crate::coeff::ratio_of_integer(1),
        r matches Ok(Some(v)) ==> split_candidate_some(computation@, definition_exts@, split@, v.0@)
            && split_candidate_some(computation@, definition_exts@, split@, v.1@),
        r == Ok::<Option<(TermBipartition, TermBipartition)>, CanonError>(None) ==> (exists|o: Seq<Index>|
            split_order(split@, o) && #[trigger] split_zero(computation@, definition_exts@, split@, o)) || split_conflict(
            computation@,
            definition_exts@,
            split@,
        ),
{
    let ghost whole = split@;
    let TermBipartition { coeff, left, left_exts, right, right_exts, contracted } = split;
    let orders = contracted_orders(contracted.as_slice());
    let mut candidates: Vec<TermBipartition> = Vec::new();
    let mut zero = false;
    let mut o: usize = 0;
    while o < orders.len()
        invariant
            o <= orders.len(),
            coeff@ == whole.coeff,
            forall|k: int| 0 <= k < candidates.len() ==> (#[trigger] candidates@[k])@.coeff == whole.coeff
                && candidates@[k]@.right.coeff == crate::coeff::ratio_of_integer(1),
            forall|k: int| 0 <= k < candidates.len() ==> split_candidate_some(computation@, definition_exts@, whole, (#[trigger] candidates@[k])@),
            zero ==> exists|od: Seq<Index>| split_order(whole, od) && #[trigger] split_zero(computation@, definition_exts@, whole, od),
            !zero ==> candidates.len() == o,
        decreases orders.len() - o,
    {
        let order = &orders[o];
        let mut scope: Vec<Index> = Vec::new();
        let mut k: usize = 0;
        while k < definition_exts.len()
            invariant
                k <= definition_exts.len(),
                scope.len() == k,
                scope@ == definition_exts@.take(k as int),
            decreases definition_exts.len() - k,
        {
            scope.push(definition_exts[k]);
            k = k + 1;
            assert(scope@ =~= definition_exts@.take(k as int));
        }
        let mut k: usize = 0;
        while k < order.len()
            invariant
                k <= order.len(),
                scope.len() == definition_exts.len() + k,
                scope@ == definition_exts@ + order@.take(k as int),
            decreases order.len() - k,
        {
            scope.push(order[k]);
            k = k + 1;
            assert(scope@ =~= definition_exts@ + order@.take(k as int));
        }
        assert(order@.take(k as int) =~= order@);
        assert(definition_exts@.take(definition_exts.len() as int) =~= definition_exts@);
        let ghost sc = scope@;
        assert(sc == definition_exts@ + order@);
        assert(order@.len() == whole.contracted.len());
        assert(forall|j: int| 0 <= j < order@.len() ==> whole.contracted.contains(#[trigger] order@[j]));
        assert(left@ == whole.left && right@ == whole.right);
        assert(left_exts@ == whole.left_exts && right_exts@ == whole.right_exts);
        let (fixed, aligned_left) = match align_term(scope.as_slice(), &left) {
            Ok(v) => v,
            Err(e) => {
                assert(split_failure(computation@, definition_exts@ + order@, whole, e));
                return Err(e);
            },
        };
        let (_, aligned_right) = match align_term(scope.as_slice(), &right) {
            Ok(v) => v,
            Err(e) => {
                assert(split_failure(computation@, definition_exts@ + order@, whole, e));
                return Err(e);
            },
        };
        let canonical_left = match canon_term(computation, fixed.as_slice(), &aligned_left) {
            Ok(v) => v,
            Err(e) => {
                assert(positional_exts(sc, fixed@) && renames_to_positions(sc, whole.left, aligned_left@));
                assert(split_failure(computation@, definition_exts@ + order@, whole, e));
                return Err(e);
            },
        };
        match canonical_left {
            None => {
                assert(split_zero(computation@, definition_exts@, whole, order@));
                zero = true;
            },
            Some(mut canonical_left) => {
                let ghost cl = canonical_left@;
                let canonical_right = match canon_term(computation, fixed.as_slice(), &aligned_right) {
                    Ok(v) => v,
                    Err(e) => {
                        assert(renames_to_positions(sc, whole.right, aligned_right@));
                        assert(split_failure(computation@, definition_exts@ + order@, whole, e));
                        return Err(e);
                    },
                };
                match canonical_right {
                    None => {
                        assert(split_zero(computation@, definition_exts@, whole, order@));
                        zero = true;
                    },
                    Some(mut canonical_right) => {
                        let ghost cr = canonical_right@;
                        canonical_left.coeff = canonical_left.coeff.mul(&canonical_right.coeff);
                        canonical_right.coeff = Coefficient::from_integer(1);
                        let aligned_left_exts = match align_exts(scope.as_slice(), fixed.as_slice(), left_exts.as_slice()) {
                            Ok(v) => v,
                            Err(e) => {
                                assert(split_failure(computation@, definition_exts@ + order@, whole, e));
                                return Err(e);
                            },
                        };
                        let aligned_right_exts = match align_exts(scope.as_slice(), fixed.as_slice(), right_exts.as_slice()) {
                            Ok(v) => v,
                            Err(e) => {
                                assert(split_failure(computation@, definition_exts@ + order@, whole, e));
                                return Err(e);
                            },
                        };
                        let mut aligned_contracted: Vec<Index> = Vec::new();
                        let mut k: usize = definition_exts.len();
                        assert(fixed@.len() == sc.len());
                        while k < fixed.len()
                            invariant
                                definition_exts.len() <= k <= fixed.len(),
                                fixed@.len() == sc.len(),
                                aligned_contracted@ == fixed@.subrange(definition_exts.len() as int, k as int),
                            decreases fixed.len() - k,
                        {
                            aligned_contracted.push(fixed[k]);
                            k = k + 1;
                            assert(aligned_contracted@ =~= fixed@.subrange(definition_exts.len() as int, k as int));
                        }
                        let candidate = TermBipartition {
                            coeff: coeff.clone(),
                            left: canonical_left,
                            left_exts: aligned_left_exts,
                            right: canonical_right,
                            right_exts: aligned_right_exts,
                            contracted: aligned_contracted,
                        };
                        proof {
                            let lt = aligned_left@;
                            let rt = aligned_right@;
                            assert(crate::canon::canonical_form(computation@, fixed@, lt, Some(cl)));
                            assert(crate::canon::canonical_form(computation@, fixed@, rt, Some(cr)));
                            assert(candidate@.left =~= (TermView { coeff: ratio_product(cl.coeff, cr.coeff), ..cl }));
                            assert(candidate@.right =~= (TermView { coeff: crate::coeff::ratio_of_integer(1), ..cr }));
                            assert(split_candidate(computation@, definition_exts@, whole, order@, candidate@));
                        }
                        let ghost before = candidates@;
                        let ghost cv = candidate@;
                        candidates.push(candidate);
                        proof {
                            assert forall|k2: int| 0 <= k2 < candidates.len() implies split_candidate_some(computation@, definition_exts@, whole, (#[trigger] candidates@[k2])@) by {
                                if k2 < before.len() {
                                    assert(candidates@[k2] == before[k2]);
                                } else {
                                    assert(candidates@[k2]@ == cv);
                                    assert(split_order(whole, order@));
                                    assert(split_candidate(computation@, definition_exts@, whole, order@, candidates@[k2]@));
                                }
                            }
                        }
                    },
                }
            },
        }
        o = o + 1;
    }
    if zero || candidates.len() == 0 {
        proof {
            if !zero {
                let sorting = choose|sorting: Seq<usize>| #[trigger] crate::valid::perm_valid(sorting, contracted.len() as nat)
                    && by_range_then_id(arranged(contracted@, sorting)) && lists_range_orders(
                    contracted@,
                    ranges_of(arranged(contracted@, sorting)),
                    orders@,
                );
                assert(fits_ranges(contracted@, ranges_of(arranged(contracted@, sorting)), sorting));
                assert(lists_order(orders@, 0, arranged(contracted@, sorting)));
            }
        }
        return Ok(None);
    }
    let left_owned = match choose_candidate(&candidates, Owner::Left) {
        Some(c) => c,
        None => {
            proof {
                let (i, k) = choose|i: int, k: int|
                    #[trigger] least_candidate(candidates@, Owner::Left, i) && #[trigger] coefficient_conflict(candidates@, Owner::Left, i, k);
                assert(split_candidate_some(computation@, definition_exts@, whole, candidates@[k]@));
                assert(split_candidate_some(computation@, definition_exts@, whole, candidates@[i]@));
                let o1 = choose|od: Seq<Index>| split_order(whole, od) && #[trigger] split_candidate(computation@, definition_exts@, whole, od, candidates@[k]@);
                let o2 = choose|od: Seq<Index>| split_order(whole, od) && #[trigger] split_candidate(computation@, definition_exts@, whole, od, candidates@[i]@);
                assert(split_candidate(computation@, definition_exts@, whole, o1, candidates@[k]@));
                assert(split_candidate(computation@, definition_exts@, whole, o2, candidates@[i]@));
                assert(candidate_order(candidates@[k]@, candidates@[i]@, Owner::Left) == 0);
                assert(split_conflict(computation@, definition_exts@, whole));
            }
            return Ok(None);
        },
    };
    let right_owned = match choose_candidate(&candidates, Owner::Right) {
        Some(c) => c,
        None => {
            proof {
                let (i, k) = choose|i: int, k: int|
                    #[trigger] least_candidate(candidates@, Owner::Right, i) && #[trigger] coefficient_conflict(candidates@, Owner::Right, i, k);
                assert(split_candidate_some(computation@, definition_exts@, whole, candidates@[k]@));
                assert(split_candidate_some(computation@, definition_exts@, whole, candidates@[i]@));
                let o1 = choose|od: Seq<Index>| split_order(whole, od) && #[trigger] split_candidate(computation@, definition_exts@, whole, od, candidates@[k]@);
                let o2 = choose|od: Seq<Index>| split_order(whole, od) && #[trigger] split_candidate(computation@, definition_exts@, whole, od, candidates@[i]@);
                assert(split_candidate(computation@, definition_exts@, whole, o1, candidates@[k]@));
                assert(split_candidate(computation@, definition_exts@, whole, o2, candidates@[i]@));
                assert(candidate_order(candidates@[k]@, candidates@[i]@, Owner::Right) == 0);
                assert(split_conflict(computation@, definition_exts@, whole));
            }
            return Ok(None);
        },
    };
    proof {
        let i = choose|i: int| 0 <= i < candidates.len() && left_owned@ == (#[trigger] candidates@[i])@;
        let j = choose|i: int| 0 <= i < candidates.len() && right_owned@ == (#[trigger] candidates@[i])@;
        assert(split_candidate_some(computation@, definition_exts@, whole, candidates@[i]@));
        assert(split_candidate_some(computation@, definition_exts@, whole, candidates@[j]@));
    }
    Ok(Some((left_owned, right_owned)))
}

// ----------------------------------------------------------------------------
// Owner graphs
// ----------------------------------------------------------------------------

/// The terms of a definition that a node pair stands for, and their summed
/// coefficient.
#[derive(Clone, Debug, PartialEq, Eq)]
pub struct Edge {
    pub coeff: Coefficient,
    pub terms: Vec<usize>,
}

/// The candidate children of one owner and interface: distinct child terms
/// on each side, and the edges between them.
#[derive(Clone, Debug, PartialEq, Eq)]
pub struct Graph {
    pub left_exts: Vec<Index>,
    pub right_exts: Vec<Index>,
    pub contracted: Vec<Index>,
    pub left_nodes: Vec<Term>,
    pub right_nodes: Vec<Term>,
    pub edges: Vec<((usize, usize), Edge)>,
}

/// Node pairs ordered by left node, then right node.
pub open spec fn key_lt(a: (usize, usize), b: (usize, usize)) -> bool {
    a.0 < b.0 || (a.0 == b.0 && a.1 < b.1)
}

/// Edge keys are node pairs in range, in increasing order.
pub closed spec fn graph_valid(g: Graph) -> bool {
    &&& forall|k: int| 0 <= k < g.left_nodes@.len() ==> !is_zero_value((#[trigger] g.left_nodes@[k])@.coeff)
    &&& forall|k: int| 0 <= k < g.right_nodes@.len() ==> !is_zero_value((#[trigger] g.right_nodes@[k])@.coeff)
    &&& forall|e: int|
        0 <= e < g.edges@.len() ==> (#[trigger] g.edges@[e]).0.0 < g.left_nodes@.len() && g.edges@[e].0.1
            < g.right_nodes@.len()
    &&& forall|a: int, b: int|
        0 <= a < b < g.edges@.len() ==> key_lt((#[trigger] g.edges@[a]).0, (#[trigger] g.edges@[b]).0)
}

/// Every edge coefficient is nonzero.
pub closed spec fn edges_nonzero(g: Graph) -> bool {
    forall|e: int| 0 <= e < g.edges@.len() ==> !is_zero_value((#[trigger] g.edges@[e]).1.coeff@)
}

/// The graph has an edge.
pub closed spec fn has_edges(g: Graph) -> bool {
    g.edges@.len() > 0
}

/// Exact equality of two terms.
fn same_term(a: &Term, b: &Term) -> (r: bool)
    ensures
        r == (a@ == b@),
{
    crate::canon::same_body(a, b) && a.coeff.equals(&b.coeff)
}

/// The position of a term among the nodes, adding it if it is new.
fn intern_node(nodes: &mut Vec<Term>, term: Term) -> (r: usize)
    requires
        !is_zero_value(term@.coeff),
        forall|k: int| 0 <= k < old(nodes).len() ==> !is_zero_value((#[trigger] old(nodes)@[k])@.coeff),
    ensures
        forall|k: int| 0 <= k < final(nodes).len() ==> !is_zero_value((#[trigger] final(nodes)@[k])@.coeff),
        final(nodes).len() >= old(nodes).len(),
        forall|k: int| 0 <= k < old(nodes).len() ==> final(nodes)@[k] == old(nodes)@[k],
        r < final(nodes).len(),
        final(nodes)@[r as int]@ == term@,
{
    let mut k: usize = 0;
    while k < nodes.len()
        invariant
            k <= nodes.len(),
            forall|j: int| 0 <= j < nodes.len() ==> !is_zero_value((#[trigger] nodes@[j])@.coeff),
        decreases nodes.len() - k,
    {
        if same_term(&nodes[k], &term) {
            return k;
        }
        k = k + 1;
    }
    let position = nodes.len();
    nodes.push(term);
    position
}

/// The order of a graph's key against an owner and interface: the left
/// owner first, then by left externals, right externals and contracted
/// indices.
pub open spec fn graph_key_order(
    graph_owner: Owner,
    graph: Graph,
    owner: Owner,
    left_exts: Seq<Index>,
    right_exts: Seq<Index>,
    contracted: Seq<Index>,
) -> int {
    if graph_owner != owner {
        if graph_owner == Owner::Left {
            -1
        } else {
            1
        }
    } else if lex_order(index_keys(graph.left_exts@), index_keys(left_exts)) != 0 {
        lex_order(index_keys(graph.left_exts@), index_keys(left_exts))
    } else if lex_order(index_keys(graph.right_exts@), index_keys(right_exts)) != 0 {
        lex_order(index_keys(graph.right_exts@), index_keys(right_exts))
    } else {
        lex_order(index_keys(graph.contracted@), index_keys(contracted))
    }
}

/// Compare a graph's key with an owner and interface: owner, then left
/// externals, right externals and contracted indices.
fn compare_graph_key(
    graph_owner: Owner,
    graph: &Graph,
    owner: Owner,
    left_exts: &Vec<Index>,
    right_exts: &Vec<Index>,
    contracted: &Vec<Index>,
) -> (r: i8)
    ensures
        -1 <= r <= 1,
        r == graph_key_order(graph_owner, *graph, owner, left_exts@, right_exts@, contracted@),
{
    if graph_owner != owner {
        return match graph_owner {
            Owner::Left => -1,
            Owner::Right => 1,
        };
    }
    let order = compare_indices(&graph.left_exts, left_exts);
    if order != 0 {
        return order;
    }
    let order = compare_indices(&graph.right_exts, right_exts);
    if order != 0 {
        return order;
    }
    compare_indices(&graph.contracted, contracted)
}

/// The graph has nodes for the two child terms and an edge between them
/// that stands for the term at `position`.
pub open spec fn holds_edge(g: Graph, left: TermView, right: TermView, position: usize) -> bool {
    exists|l: usize, r: usize|
        #![trigger has_edge(g, l, r)]
        l < g.left_nodes@.len() && r < g.right_nodes@.len() && g.left_nodes@[l as int]@ == left
            && g.right_nodes@[r as int]@ == right && has_edge(g, l, r) && edge_of(g, l, r).terms@.contains(position)
}

/// `after` is `before` with the split of the term at `position` into `left`
/// and `right` recorded in the graph of the owner and interface: that graph,
/// made if there was none, holds the edge, and every graph of another key is
/// kept.
pub open spec fn records_edge(
    before: Seq<(Owner, Graph)>,
    after: Seq<(Owner, Graph)>,
    owner: Owner,
    left_exts: Seq<Index>,
    right_exts: Seq<Index>,
    contracted: Seq<Index>,
    left: TermView,
    right: TermView,
    position: usize,
) -> bool {
    &&& after.len() <= before.len() + 1
    &&& forall|h: int|
        0 <= h < before.len() && graph_key_order((#[trigger] before[h]).0, before[h].1, owner, left_exts, right_exts, contracted) != 0
            ==> after.contains(before[h])
    &&& exists|g: int|
        0 <= g < after.len() && (#[trigger] after[g]).0 == owner && after[g].1.left_exts@ == left_exts
            && after[g].1.right_exts@ == right_exts && after[g].1.contracted@ == contracted && holds_edge(
            after[g].1,
            left,
            right,
            position,
        )
}

/// Record that one term of the definition splits into `left` and `right`
/// under the given owner and interface.
#[verifier::loop_isolation(false)]
#[verifier::spinoff_prover]
#[verifier::rlimit(80)]
fn insert_edge(
    graphs: &mut Vec<(Owner, Graph)>,
    owner: Owner,
    left_exts: Vec<Index>,
    right_exts: Vec<Index>,
    contracted: Vec<Index>,
    left: Term,
    right: Term,
    coeff: Coefficient,
    term_position: usize,
)
    requires
        forall|g: int| 0 <= g < old(graphs).len() ==> graph_valid((#[trigger] old(graphs)@[g]).1),
        !is_zero_value(left@.coeff),
        !is_zero_value(right@.coeff),
    ensures
        forall|g: int| 0 <= g < final(graphs).len() ==> graph_valid((#[trigger] final(graphs)@[g]).1),
        records_edge(old(graphs)@, final(graphs)@, owner, left_exts@, right_exts@, contracted@, left@, right@, term_position),
{
    let ghost (le, re, ce, lt, rt) = (left_exts@, right_exts@, contracted@, left@, right@);
    let mut at: usize = 0;
    let mut found = false;
    let mut stop = false;
    while at < graphs.len() && !stop
        invariant
            at <= graphs.len(),
            found ==> stop && at < graphs.len(),
            found ==> graph_key_order(graphs@[at as int].0, graphs@[at as int].1, owner, left_exts@, right_exts@, contracted@) == 0,
        decreases graphs.len() - at + if stop { 0int } else { 1int },
    {
        let order = compare_graph_key(graphs[at].0, &graphs[at].1, owner, &left_exts, &right_exts, &contracted);
        if order == 0 {
            found = true;
            stop = true;
        } else if order > 0 {
            stop = true;
        } else {
            at = at + 1;
        }
    }
    let ghost original_graphs = graphs@;
    let mut graph = if found {
        let (_, graph) = graphs.remove(at);
        proof {
            let g0 = original_graphs[at as int].1;
            crate::order::lemma_lex_order_zero(index_keys(g0.left_exts@), index_keys(le));
            crate::order::lemma_lex_order_zero(index_keys(g0.right_exts@), index_keys(re));
            crate::order::lemma_lex_order_zero(index_keys(g0.contracted@), index_keys(ce));
            crate::order::lemma_index_keys_injective(g0.left_exts@, le);
            crate::order::lemma_index_keys_injective(g0.right_exts@, re);
            crate::order::lemma_index_keys_injective(g0.contracted@, ce);
            assert(original_graphs[at as int].0 == owner);
            assert(graph_valid(original_graphs[at as int].1));
            assert forall|g: int| 0 <= g < graphs.len() implies graph_valid((#[trigger] graphs@[g]).1) by {
                if g < at {
                    assert(graphs@[g] == original_graphs[g]);
                } else {
                    assert(graphs@[g] == original_graphs[g + 1]);
                }
            }
        }
        graph
    } else {
        Graph {
            left_exts,
            right_exts,
            contracted,
            left_nodes: Vec::new(),
            right_nodes: Vec::new(),
            edges: Vec::new(),
        }
    };
    assert(graph_valid(graph));
    assert(at <= graphs.len());
    assert(graph.left_exts@ == le && graph.right_exts@ == re && graph.contracted@ == ce);
    let ghost edges_before = graph.edges@;
    let l = intern_node(&mut graph.left_nodes, left);
    let r = intern_node(&mut graph.right_nodes, right);
    assert(graph.edges@ == edges_before);
    assert(graph_valid(graph));
    let mut e: usize = 0;
    let mut same = false;
    let mut stop = false;
    while e < graph.edges.len() && !stop
        invariant
            e <= graph.edges.len(),
            graph_valid(graph),
            forall|x: int| 0 <= x < e ==> key_lt((#[trigger] graph.edges@[x]).0, (l, r)),
            same ==> stop && e < graph.edges.len() && graph.edges@[e as int].0 == (l, r),
            stop && !same ==> e < graph.edges.len() && key_lt((l, r), graph.edges@[e as int].0),
        decreases graph.edges.len() - e + if stop { 0int } else { 1int },
    {
        let key = graph.edges[e].0;
        if key.0 == l && key.1 == r {
            same = true;
            stop = true;
        } else if key.0 > l || (key.0 == l && key.1 > r) {
            stop = true;
        } else {
            e = e + 1;
        }
    }
    if !same {
        let ghost before = graph.edges@;
        graph.edges.insert(e, ((l, r), Edge { coeff: Coefficient::from_integer(0), terms: Vec::new() }));
        proof {
            assert forall|a: int, b: int| 0 <= a < b < graph.edges@.len() implies key_lt((#[trigger] graph.edges@[a]).0, (#[trigger] graph.edges@[b]).0) by {
                if b < e {
                    assert(graph.edges@[a] == before[a]);
                    assert(graph.edges@[b] == before[b]);
                } else if b == e {
                    assert(graph.edges@[a] == before[a]);
                } else if a < e {
                    assert(graph.edges@[a] == before[a]);
                    assert(graph.edges@[b] == before[b - 1]);
                    assert(key_lt((l, r), before[e as int].0));
                    if b - 1 > e {
                        assert(key_lt(before[e as int].0, before[b - 1].0));
                    }
                } else if a == e {
                    assert(graph.edges@[b] == before[b - 1]);
                    assert(key_lt((l, r), before[e as int].0));
                    if b - 1 > e {
                        assert(key_lt(before[e as int].0, before[b - 1].0));
                    }
                } else {
                    assert(graph.edges@[a] == before[a - 1]);
                    assert(graph.edges@[b] == before[b - 1]);
                }
            }
            assert forall|x: int| 0 <= x < graph.edges@.len() implies (#[trigger] graph.edges@[x]).0.0 < graph.left_nodes@.len()
                && graph.edges@[x].0.1 < graph.right_nodes@.len() by {
                if x < e {
                    assert(graph.edges@[x] == before[x]);
                } else if x > e {
                    assert(graph.edges@[x] == before[x - 1]);
                }
            }
        }
    }
    assert(graph.edges@[e as int].0 == (l, r));
    let current = &graph.edges[e].1;
    let mut terms: Vec<usize> = Vec::new();
    let mut present = false;
    let mut k: usize = 0;
    while k < current.terms.len()
        invariant
            k <= current.terms.len(),
            terms.len() == k,
            terms@ == current.terms@.take(k as int),
            present <==> terms@.contains(term_position),
        decreases current.terms.len() - k,
    {
        if current.terms[k] == term_position {
            present = true;
        }
        let ghost prior = terms@;
        terms.push(current.terms[k]);
        proof {
            assert(terms@ =~= current.terms@.take(k + 1));
            if prior.contains(term_position) {
                let j = choose|j: int| 0 <= j < prior.len() && prior[j] == term_position;
                assert(terms@[j] == term_position);
            }
            if current.terms@[k as int] == term_position {
                assert(terms@[k as int] == term_position);
            }
            if terms@.contains(term_position) && current.terms@[k as int] != term_position {
                let j = choose|j: int| 0 <= j < terms@.len() && terms@[j] == term_position;
                assert(prior[j] == term_position);
            }
        }
        k = k + 1;
    }
    let mut total = current.coeff.clone();
    if !present {
        let mut at: usize = 0;
        while at < terms.len() && terms[at] < term_position
            invariant
                at <= terms.len(),
            decreases terms.len() - at,
        {
            at = at + 1;
        }
        terms.insert(at, term_position);
        assert(terms@[at as int] == term_position);
        total = total.add(&coeff);
    }
    assert(terms@.contains(term_position));
    let ghost before = graph.edges@;
    graph.edges.set(e, ((l, r), Edge { coeff: total, terms }));
    proof {
        assert forall|x: int| 0 <= x < graph.edges@.len() implies (#[trigger] graph.edges@[x]).0 == before[x].0 by {}
        assert forall|a: int, b: int| 0 <= a < b < graph.edges@.len() implies key_lt((#[trigger] graph.edges@[a]).0, (#[trigger] graph.edges@[b]).0) by {
            assert(graph.edges@[a].0 == before[a].0);
            assert(graph.edges@[b].0 == before[b].0);
        }
        assert forall|x: int| 0 <= x < graph.edges@.len() implies (#[trigger] graph.edges@[x]).0.0 < graph.left_nodes@.len()
            && graph.edges@[x].0.1 < graph.right_nodes@.len() by {
            assert(graph.edges@[x].0 == before[x].0);
        }
    }
    let ghost before_graphs = graphs@;
    graphs.insert(at, (owner, graph));
    proof {
        assert forall|g: int| 0 <= g < graphs.len() implies graph_valid((#[trigger] graphs@[g]).1) by {
            if g < at {
                assert(graphs@[g] == before_graphs[g]);
            } else if g > at {
                assert(graphs@[g] == before_graphs[g - 1]);
            }
        }
        let gr = graphs@[at as int].1;
        lemma_edge_index(gr, e as int);
        assert(gr.edges@[e as int].0 == (l, r));
        assert(has_edge(gr, l, r));
        assert(edge_of(gr, l, r).terms@.contains(term_position));
        assert(holds_edge(gr, lt, rt, term_position));
        assert forall|h: int|
            0 <= h < original_graphs.len() && graph_key_order((#[trigger] original_graphs[h]).0, original_graphs[h].1, owner, le, re, ce) != 0
            implies graphs@.contains(original_graphs[h]) by {
            if found {
                assert(h != at);
                if h < at {
                    assert(before_graphs[h] == original_graphs[h]);
                    assert(graphs@[h] == original_graphs[h]);
                } else {
                    assert(before_graphs[h - 1] == original_graphs[h]);
                    assert(graphs@[h] == original_graphs[h]);
                }
            } else {
                if h < at {
                    assert(graphs@[h] == original_graphs[h]);
                } else {
                    assert(graphs@[h + 1] == original_graphs[h]);
                }
            }
        }
        assert(graphs@[at as int].0 == owner);
    }
}

/// The externals of a child that belong to the definition.
fn definition_externals(exts: &Vec<Index>, definition_ext_count: usize) -> (r: Vec<Index>)
    ensures
        r.len() <= exts.len(),
        r@ == definition_part(exts@, definition_ext_count as int),
{
    let mut r: Vec<Index> = Vec::new();
    let mut k: usize = 0;
    while k < exts.len()
        invariant
            k <= exts.len(),
            r.len() <= k,
            r@ == definition_part(exts@.take(k as int), definition_ext_count as int),
        decreases exts.len() - k,
    {
        assert(exts@.take(k + 1).drop_last() =~= exts@.take(k as int));
        if (exts[k].id.0 as usize) < definition_ext_count {
            r.push(exts[k]);
        }
        k = k + 1;
    }
    assert(exts@.take(k as int) =~= exts@);
    r
}

/// The indices of `exts` numbered below `count`, in order.
pub open spec fn definition_part(exts: Seq<Index>, count: int) -> Seq<Index>
    decreases exts.len(),
{
    if exts.len() == 0 {
        Seq::empty()
    } else if exts.last().id.0 < count {
        definition_part(exts.drop_last(), count).push(exts.last())
    } else {
        definition_part(exts.drop_last(), count)
    }
}

/// Add one canonical split of a term to the graph of its owner, oriented so
/// that the child with the smaller definition externals is on the left; a
/// split whose children have equal definition externals is added both ways.
#[verifier::spinoff_prover]
fn insert_split(
    graphs: &mut Vec<(Owner, Graph)>,
    owner: Owner,
    definition_ext_count: usize,
    term_position: usize,
    split: TermBipartition,
)
    requires
        forall|g: int| 0 <= g < old(graphs).len() ==> graph_valid((#[trigger] old(graphs)@[g]).1),
    ensures
        forall|g: int| 0 <= g < final(graphs).len() ==> graph_valid((#[trigger] final(graphs)@[g]).1),
        records_split(old(graphs)@, final(graphs)@, owner, definition_ext_count as int, term_position, split@),
{
    let ghost sp = split@;
    let TermBipartition { coeff, mut left, left_exts, mut right, right_exts, contracted } = split;
    let coeff = coeff.mul(&left.coeff).mul(&right.coeff);
    left.coeff = Coefficient::from_integer(1);
    right.coeff = Coefficient::from_integer(1);
    assert(!is_zero_value(left@.coeff));
    assert(!is_zero_value(right@.coeff));
    let left_external = definition_externals(&left_exts, definition_ext_count);
    let right_external = definition_externals(&right_exts, definition_ext_count);
    let order = compare_indices(&left_external, &right_external);
    assert(left@ == unit_child(sp.left) && right@ == unit_child(sp.right));
    assert(left_exts@ == sp.left_exts && right_exts@ == sp.right_exts && contracted@ == sp.contracted);
    let ghost o = lex_order(index_keys(definition_part(sp.left_exts, definition_ext_count as int)), index_keys(definition_part(sp.right_exts, definition_ext_count as int)));
    assert(order == o);
    if order < 0 {
        insert_edge(graphs, owner, left_exts, right_exts, contracted, left, right, coeff, term_position);
    } else if order > 0 {
        insert_edge(graphs, owner.opposite(), right_exts, left_exts, contracted, right, left, coeff, term_position);
    } else {
        let ghost before = graphs@;
        insert_edge(
            graphs,
            owner,
            left_exts.clone(),
            right_exts.clone(),
            contracted.clone(),
            left.clone(),
            right.clone(),
            coeff.clone(),
            term_position,
        );
        let ghost mid = graphs@;
        insert_edge(graphs, owner.opposite(), right_exts, left_exts, contracted, right, left, coeff, term_position);
        assert(records_edge(before, mid, owner, sp.left_exts, sp.right_exts, sp.contracted, unit_child(sp.left), unit_child(sp.right), term_position));
    }
}

/// A child term with coefficient one.
pub open spec fn unit_child(t: TermView) -> TermView {
    TermView { coeff: crate::coeff::ratio_of_integer(1), ..t }
}

/// The owner that is not `o`.
pub open spec fn other_owner(o: Owner) -> Owner {
    match o {
        Owner::Left => Owner::Right,
        Owner::Right => Owner::Left,
    }
}

/// `after` is `before` with the split recorded with children of coefficient
/// one, oriented so that the child whose externals of the definition (those
/// numbered below `count`) come first is on the left; with equal such
/// externals, it is recorded both ways, the given orientation first.
pub open spec fn records_split(
    before: Seq<(Owner, Graph)>,
    after: Seq<(Owner, Graph)>,
    owner: Owner,
    count: int,
    position: usize,
    sp: BipartitionView,
) -> bool {
    let o = lex_order(index_keys(definition_part(sp.left_exts, count)), index_keys(definition_part(sp.right_exts, count)));
    let l = unit_child(sp.left);
    let r = unit_child(sp.right);
    &&& o < 0 ==> records_edge(before, after, owner, sp.left_exts, sp.right_exts, sp.contracted, l, r, position)
    &&& o > 0 ==> records_edge(before, after, other_owner(owner), sp.right_exts, sp.left_exts, sp.contracted, r, l, position)
    &&& o == 0 ==> exists|mid: Seq<(Owner, Graph)>|
        #[trigger] records_edge(before, mid, owner, sp.left_exts, sp.right_exts, sp.contracted, l, r, position)
            && records_edge(mid, after, other_owner(owner), sp.right_exts, sp.left_exts, sp.contracted, r, l, position)
}

/// Canonicalizing the split fails with `e` under some order of its
/// contracted indices.
pub open spec fn split_fails(c: crate::repr::ComputationView, exts: Seq<Index>, sp: BipartitionView, e: CanonError) -> bool {
    exists|order: Seq<Index>|
        #[trigger] split_failure(c, exts + order, sp, e) && order.len() == sp.contracted.len() && forall|j: int|
            0 <= j < order.len() ==> sp.contracted.contains(#[trigger] order[j])
}

/// The owner graphs of a definition: every canonical split of every term,
/// keeping edges with a nonzero summed coefficient and graphs with an edge.
#[verifier::loop_isolation(false)]
pub fn build_graphs(computation: &Computation, definition: &TensorDef) -> (r: Result<Vec<Graph>, CanonError>)
    requires
        forall|t: int| 0 <= t < definition.rhs.len() ==> (#[trigger] definition.rhs@[t]).factors.len() <= usize::BITS,
        forall|t: int, k: int| 0 <= t < definition.rhs.len() && 0 <= k < definition.rhs@[t]@.sums.len()
            ==> term_uses(definition.rhs@[t]@, (#[trigger] definition.rhs@[t]@.sums[k]).id),
    ensures
        r matches Ok(graphs) ==> forall|g: int| 0 <= g < graphs.len() ==> graph_valid(#[trigger] graphs@[g])
            && edges_nonzero(graphs@[g]) && has_edges(graphs@[g]),
        r matches Err(e) ==> exists|t: int, c: nat|
            0 <= t < definition.rhs.len() && #[trigger] split_fails(
                computation@,
                definition@.exts,
                bipartition_of(definition@.exts, definition@.rhs[t], split_mask(definition@.rhs[t].factors.len(), c)),
                e,
            ),
{
    let mut graphs: Vec<(Owner, Graph)> = Vec::new();
    let mut position: usize = 0;
    while position < definition.rhs.len()
        invariant
            position <= definition.rhs.len(),
            forall|g: int| 0 <= g < graphs.len() ==> graph_valid((#[trigger] graphs@[g]).1),
        decreases definition.rhs.len() - position,
    {
        let term = &definition.rhs[position];
        assert(term.factors.len() <= usize::BITS);
        assert forall|k: int| 0 <= k < term.sums.len() implies term_uses(term@, (#[trigger] term@.sums[k]).id) by {
            assert(term_uses(definition.rhs@[position as int]@, definition.rhs@[position as int]@.sums[k].id));
        }
        let mut splits = enumerate_splits(definition.exts.as_slice(), term);
        let ghost all = splits@;
        let ghost mut done: int = 0;
        assert(definition@.rhs[position as int] == term@);
        assert(definition@.exts == definition.exts@);
        while splits.len() > 0
            invariant
                forall|g: int| 0 <= g < graphs.len() ==> graph_valid((#[trigger] graphs@[g]).1),
                0 <= done <= all.len(),
                splits@ == all.subrange(done, all.len() as int),
            decreases splits.len(),
        {
            let split = splits.remove(0);
            assert(split == all[done]);
            let outcome = match canon_split(computation, definition.exts.as_slice(), split) {
                Ok(v) => v,
                Err(e) => {
                    assert(split_fails(
                        computation@,
                        definition@.exts,
                        bipartition_of(definition@.exts, definition@.rhs[position as int], split_mask(definition@.rhs[position as int].factors.len(), done as nat)),
                        e,
                    ));
                    return Err(e);
                },
            };
            proof {
                done = done + 1;
                assert(splits@ =~= all.subrange(done, all.len() as int));
            }
            match outcome {
                None => {},
                Some((left_owned, right_owned)) => {
                    insert_split(&mut graphs, Owner::Left, definition.exts.len(), position, left_owned);
                    insert_split(&mut graphs, Owner::Right, definition.exts.len(), position, right_owned);
                },
            }
        }
        position = position + 1;
    }
    let mut result: Vec<Graph> = Vec::new();
    while graphs.len() > 0
        invariant
            forall|g: int| 0 <= g < graphs.len() ==> graph_valid((#[trigger] graphs@[g]).1),
            forall|g: int| 0 <= g < result.len() ==> graph_valid(#[trigger] result@[g]) && edges_nonzero(result@[g])
                && has_edges(result@[g]),
        decreases graphs.len(),
    {
        let (_, mut graph) = graphs.remove(0);
        assert(graph_valid(graph));
        let mut edges: Vec<((usize, usize), Edge)> = Vec::new();
        std::mem::swap(&mut edges, &mut graph.edges);
        let ghost original = edges@;
        assert(forall|a: int, b: int| 0 <= a < b < original.len() ==> key_lt((#[trigger] original[a]).0, (#[trigger] original[b]).0));
        assert(forall|x: int| 0 <= x < original.len() ==> (#[trigger] original[x]).0.0 < graph.left_nodes@.len() && original[x].0.1 < graph.right_nodes@.len());
        let mut kept: Vec<((usize, usize), Edge)> = Vec::new();
        let ghost mut from: Seq<int> = Seq::empty();
        let ghost mut done: int = 0;
        while edges.len() > 0
            invariant
                0 <= done <= original.len(),
                edges@ == original.subrange(done, original.len() as int),
                kept.len() == from.len(),
                forall|x: int| 0 <= x < kept.len() ==> 0 <= #[trigger] from[x] < done && kept@[x] == original[from[x]],
                forall|a: int, b: int| 0 <= a < b < kept.len() ==> from[a] < from[b],
                forall|x: int| 0 <= x < kept.len() ==> !is_zero_value((#[trigger] kept@[x]).1.coeff@),
            decreases edges.len(),
        {
            let entry = edges.remove(0);
            proof {
                assert(entry == original[done]);
            }
            if !entry.1.coeff.is_zero() {
                kept.push(entry);
                proof {
                    from = from.push(done);
                }
            }
            proof {
                done = done + 1;
                assert(edges@ =~= original.subrange(done, original.len() as int));
            }
        }
        proof {
            assert forall|a: int, b: int| 0 <= a < b < kept.len() implies key_lt((#[trigger] kept@[a]).0, (#[trigger] kept@[b]).0) by {
                assert(from[a] < from[b]);
                assert(kept@[a] == original[from[a]]);
                assert(kept@[b] == original[from[b]]);
            }
            assert forall|x: int| 0 <= x < kept.len() implies (#[trigger] kept@[x]).0.0 < graph.left_nodes@.len() && kept@[x].0.1 < graph.right_nodes@.len() by {
                assert(kept@[x] == original[from[x]]);
            }
        }
        graph.edges = kept;
        if graph.edges.len() > 0 {
            result.push(graph);
        }
    }
    Ok(result)
}

// ----------------------------------------------------------------------------
// Bicliques
// ----------------------------------------------------------------------------

/// Left nodes, right nodes with coefficients whose products give the edge
/// coefficients, and the covered terms.
#[derive(Clone, Debug, PartialEq, Eq)]
pub struct Biclique {
    pub left: Vec<(usize, Coefficient)>,
    pub right: Vec<(usize, Coefficient)>,
    pub terms: Vec<usize>,
}

/// The graph has an edge between the two nodes.
pub closed spec fn has_edge(g: Graph, l: usize, r: usize) -> bool {
    exists|e: int| 0 <= e < g.edges@.len() && (#[trigger] g.edges@[e]).0 == (l, r)
}

/// Both sides are nonempty, every node is in range with a nonzero
/// coefficient, and every left node has an edge to every right node.
pub closed spec fn biclique_valid(g: Graph, b: Biclique) -> bool {
    &&& b.left@.len() >= 1
    &&& b.right@.len() >= 1
    &&& forall|i: int| 0 <= i < b.left@.len() ==> (#[trigger] b.left@[i]).0 < g.left_nodes@.len() && !is_zero_value(b.left@[i].1@)
    &&& forall|j: int| 0 <= j < b.right@.len() ==> (#[trigger] b.right@[j]).0 < g.right_nodes@.len() && !is_zero_value(b.right@[j].1@)
    &&& forall|i: int, j: int| 0 <= i < b.left@.len() && 0 <= j < b.right@.len() ==> has_edge(g, (#[trigger] b.left@[i]).0, (#[trigger] b.right@[j]).0)
}

fn find_edge(graph: &Graph, l: usize, r: usize) -> (e: Option<usize>)
    ensures
        e matches Some(x) ==> x < graph.edges.len() && graph.edges@[x as int].0 == (l, r),
        e is None ==> !has_edge(*graph, l, r),
{
    let mut x: usize = 0;
    while x < graph.edges.len()
        invariant
            x <= graph.edges.len(),
            forall|y: int| 0 <= y < x ==> (#[trigger] graph.edges@[y]).0 != (l, r),
        decreases graph.edges.len() - x,
    {
        if graph.edges[x].0.0 == l && graph.edges[x].0.1 == r {
            return Some(x);
        }
        x = x + 1;
    }
    None
}

fn copy_sides(side: &Vec<(usize, Coefficient)>) -> (r: Vec<(usize, Coefficient)>)
    ensures
        r.len() == side.len(),
        forall|i: int| 0 <= i < r.len() ==> (#[trigger] r@[i]).0 == side@[i].0 && r@[i].1@ == side@[i].1@,
{
    let mut r: Vec<(usize, Coefficient)> = Vec::new();
    let mut k: usize = 0;
    while k < side.len()
        invariant
            k <= side.len(),
            r.len() == k,
            forall|i: int| 0 <= i < k ==> (#[trigger] r@[i]).0 == side@[i].0 && r@[i].1@ == side@[i].1@,
        decreases side.len() - k,
    {
        r.push((side[k].0, side[k].1.clone()));
        k = k + 1;
    }
    r
}

fn copy_positions(v: &Vec<usize>) -> (r: Vec<usize>)
    ensures
        r@ == v@,
{
    let r = v.clone();
    assert(r@ =~= v@);
    r
}

fn disjoint(a: &Vec<usize>, b: &Vec<usize>) -> (r: bool)
    ensures
        r == (forall|x: usize| !(a@.contains(x) && b@.contains(x))),
{
    let mut i: usize = 0;
    while i < a.len()
        invariant
            i <= a.len(),
            forall|x: int, y: int| 0 <= x < i && 0 <= y < b.len() ==> a@[x] != b@[y],
        decreases a.len() - i,
    {
        let mut j: usize = 0;
        while j < b.len()
            invariant
                j <= b.len(),
                i < a.len(),
                forall|x: int, y: int| 0 <= x < i && 0 <= y < b.len() ==> a@[x] != b@[y],
                forall|y: int| 0 <= y < j ==> a@[i as int] != b@[y],
            decreases b.len() - j,
        {
            if a[i] == b[j] {
                assert(a@.contains(a@[i as int]) && b@.contains(a@[i as int]));
                return false;
            }
            j = j + 1;
        }
        i = i + 1;
    }
    assert forall|x: usize| !(a@.contains(x) && b@.contains(x)) by {
        if a@.contains(x) && b@.contains(x) {
            let p = choose|p: int| 0 <= p < a.len() && a@[p] == x;
            let q = choose|q: int| 0 <= q < b.len() && b@[q] == x;
        }
    }
    true
}

/// Add the elements of `more` to the sorted set `set`.
#[verifier::spinoff_prover]
fn extend_sorted(set: &mut Vec<usize>, more: &Vec<usize>)
    ensures
        ascending(old(set)@) ==> ascending(final(set)@),
        forall|x: usize| final(set)@.contains(x) <==> old(set)@.contains(x) || more@.contains(x),
{
    let ghost original = set@;
    let mut k: usize = 0;
    while k < more.len()
        invariant
            k <= more.len(),
            ascending(original) ==> ascending(set@),
            forall|v: usize| set@.contains(v) <==> original.contains(v) || more@.take(k as int).contains(v),
        decreases more.len() - k,
    {
        let ghost before = set@;
        assert(forall|v: usize| before.contains(v) <==> original.contains(v) || more@.take(k as int).contains(v));
        insert_absent(set, more[k]);
        proof {
            let prefix = more@.take(k as int);
            let grown = more@.take(k + 1);
            assert(grown =~= prefix.push(more@[k as int]));
            assert forall|v: usize| set@.contains(v) <==> original.contains(v) || grown.contains(v) by {
                assert(set@.contains(v) == (before.contains(v) || v == more@[k as int]));
                assert(before.contains(v) == (original.contains(v) || prefix.contains(v)));
                if grown.contains(v) && v != more@[k as int] {
                    let j = choose|j: int| 0 <= j < grown.len() && #[trigger] grown[j] == v;
                    assert(prefix[j] == v);
                }
                if prefix.contains(v) {
                    let j = choose|j: int| 0 <= j < prefix.len() && #[trigger] prefix[j] == v;
                    assert(grown[j] == v);
                }
                if v == more@[k as int] {
                    assert(grown[k as int] == v);
                }
            }
        }
        k = k + 1;
    }
    assert(more@.take(more.len() as int) =~= more@);
    assert forall|x: usize| set@.contains(x) <==> original.contains(x) || more@.contains(x) by {
        assert(more@.take(k as int) == more@);
    }
}

/// Add `x` unless it is present, before the first larger entry.
#[verifier::spinoff_prover]
fn insert_absent(set: &mut Vec<usize>, x: usize)
    ensures
        ascending(old(set)@) ==> ascending(final(set)@),
        forall|v: usize| final(set)@.contains(v) <==> old(set)@.contains(v) || v == x,
{
    let mut at: usize = 0;
    let mut present = false;
    while at < set.len() && set[at] <= x
        invariant
            at <= set.len(),
            forall|j: int| 0 <= j < at ==> set@[j] <= x,
            present == exists|j: int| 0 <= j < at && set@[j] == x,
        decreases set.len() - at,
    {
        if set[at] == x {
            present = true;
        }
        at = at + 1;
    }
    if present {
        proof {
            let j = choose|j: int| 0 <= j < at && set@[j] == x;
            assert(set@.contains(x));
        }
        return;
    }
    let ghost before = set@;
    proof {
        if at < set.len() && ascending(before) {
            assert forall|j: int| at <= j < before.len() implies before[j] > x by {
                if j > at {
                    assert(before[at as int] < before[j]);
                }
            }
        }
    }
    set.insert(at, x);
    proof {
        assert(set@ =~= before.insert(at as int, x));
        if ascending(before) {
            assert forall|a: int, b: int| 0 <= a < b < set@.len() implies set@[a] < set@[b] by {
                if b < at {
                    assert(set@[a] == before[a] && set@[b] == before[b]);
                } else if b == at {
                    assert(set@[a] == before[a]);
                    assert(before[a] != x);
                } else if a < at {
                    assert(set@[a] == before[a] && set@[b] == before[b - 1]);
                } else if a == at {
                    assert(set@[b] == before[b - 1]);
                } else {
                    assert(set@[a] == before[a - 1] && set@[b] == before[b - 1]);
                }
            }
        }
        assert forall|v: usize| set@.contains(v) <==> before.contains(v) || v == x by {
            if set@.contains(v) {
                let j = choose|j: int| 0 <= j < set@.len() && set@[j] == v;
                if j < at {
                    assert(before[j] == v);
                } else if j > at {
                    assert(before[j - 1] == v);
                }
            }
            if before.contains(v) {
                let j = choose|j: int| 0 <= j < before.len() && before[j] == v;
                if j < at {
                    assert(set@[j] == v);
                } else {
                    assert(set@[j + 1] == v);
                }
            }
            if v == x {
                assert(set@[at as int] == v);
            }
        }
        assert(before == old(set)@);
        assert forall|v: usize| set@.contains(v) <==> old(set)@.contains(v) || v == x by {
            assert(set@.contains(v) <==> before.contains(v) || v == x);
        }
    }
}

/// Entries in strictly increasing order.
pub open spec fn ascending(s: Seq<usize>) -> bool {
    forall|a: int, b: int| 0 <= a < b < s.len() ==> s[a] < s[b]
}

/// The position of the edge between two nodes.
pub closed spec fn edge_index(g: Graph, l: usize, r: usize) -> int {
    choose|e: int| 0 <= e < g.edges@.len() && (#[trigger] g.edges@[e]).0 == (l, r)
}

/// The edge between two nodes.
pub closed spec fn edge_of(g: Graph, l: usize, r: usize) -> Edge {
    g.edges@[edge_index(g, l, r)].1
}

/// In a valid graph an edge is the only one with its node pair.
proof fn lemma_edge_index(g: Graph, x: int)
    requires
        graph_valid(g),
        0 <= x < g.edges@.len(),
    ensures
        edge_index(g, g.edges@[x].0.0, g.edges@[x].0.1) == x,
        edge_of(g, g.edges@[x].0.0, g.edges@[x].0.1) == g.edges@[x].1,
{
    let (l, r) = g.edges@[x].0;
    assert(has_edge(g, l, r));
    let y = edge_index(g, l, r);
    if y < x {
        assert(key_lt(g.edges@[y].0, g.edges@[x].0));
    } else if y > x {
        assert(key_lt(g.edges@[x].0, g.edges@[y].0));
    }
}

/// The edge from a new left node to the right node at position `j`.
pub open spec fn left_edge(g: Graph, b: Biclique, node: usize, j: int) -> Edge {
    edge_of(g, node, b.right@[j].0)
}

/// The coefficient a new left node takes: its edge to the first right node
/// over that node's coefficient.
pub open spec fn left_extension_coeff(g: Graph, b: Biclique, node: usize) -> CoeffView {
    crate::coeff::ratio_quotient(left_edge(g, b, node, 0).coeff@, b.right@[0].1@)
}

/// A left node extends the biclique: it has an edge to every right node, each
/// edge's coefficient is its coefficient times the right node's, and the
/// edges cover no term of the biclique and no term twice.
pub open spec fn left_extends(g: Graph, b: Biclique, node: usize) -> bool {
    &&& forall|j: int| 0 <= j < b.right@.len() ==> has_edge(g, node, (#[trigger] b.right@[j]).0)
    &&& forall|j: int|
        0 <= j < b.right@.len() ==> (#[trigger] left_edge(g, b, node, j)).coeff@ == ratio_product(
            left_extension_coeff(g, b, node),
            b.right@[j].1@,
        )
    &&& forall|j: int, t: usize|
        0 <= j < b.right@.len() && #[trigger] left_edge(g, b, node, j).terms@.contains(t) ==> !b.terms@.contains(t)
    &&& forall|j1: int, j2: int, t: usize|
        0 <= j1 < j2 < b.right@.len() && #[trigger] left_edge(g, b, node, j2).terms@.contains(t)
            ==> !(#[trigger] left_edge(g, b, node, j1).terms@.contains(t))
}

/// The edge to a new right node from the left node at position `j`.
pub open spec fn right_edge(g: Graph, b: Biclique, node: usize, j: int) -> Edge {
    edge_of(g, b.left@[j].0, node)
}

/// The coefficient a new right node takes: the first left node's edge to it
/// over that node's coefficient.
pub open spec fn right_extension_coeff(g: Graph, b: Biclique, node: usize) -> CoeffView {
    crate::coeff::ratio_quotient(right_edge(g, b, node, 0).coeff@, b.left@[0].1@)
}

/// A right node extends the biclique, as [`left_extends`] with the sides
/// exchanged.
pub open spec fn right_extends(g: Graph, b: Biclique, node: usize) -> bool {
    &&& forall|j: int| 0 <= j < b.left@.len() ==> has_edge(g, (#[trigger] b.left@[j]).0, node)
    &&& forall|j: int|
        0 <= j < b.left@.len() ==> (#[trigger] right_edge(g, b, node, j)).coeff@ == ratio_product(
            b.left@[j].1@,
            right_extension_coeff(g, b, node),
        )
    &&& forall|j: int, t: usize|
        0 <= j < b.left@.len() && #[trigger] right_edge(g, b, node, j).terms@.contains(t) ==> !b.terms@.contains(t)
    &&& forall|j1: int, j2: int, t: usize|
        0 <= j1 < j2 < b.left@.len() && #[trigger] right_edge(g, b, node, j2).terms@.contains(t)
            ==> !(#[trigger] right_edge(g, b, node, j1).terms@.contains(t))
}

/// `s2` is `s` with `(node, coeff)` appended, entry by entry.
pub open spec fn side_pushed(s: Seq<(usize, Coefficient)>, node: usize, coeff: CoeffView, s2: Seq<(usize, Coefficient)>) -> bool {
    &&& s2.len() == s.len() + 1
    &&& forall|i: int| 0 <= i < s.len() ==> (#[trigger] s2[i]).0 == s[i].0 && s2[i].1@ == s[i].1@
    &&& s2[s.len() as int].0 == node
    &&& s2[s.len() as int].1@ == coeff
}

/// `s2` holds the entries of `s`, entry by entry.
pub open spec fn side_kept(s: Seq<(usize, Coefficient)>, s2: Seq<(usize, Coefficient)>) -> bool {
    &&& s2.len() == s.len()
    &&& forall|i: int| 0 <= i < s.len() ==> (#[trigger] s2[i]).0 == s[i].0 && s2[i].1@ == s[i].1@
}

/// Extend the biclique by a left node whose edges to the right nodes are
/// proportional to the right coefficients and cover no term twice.
#[verifier::loop_isolation(false)]
fn add_left(graph: &Graph, biclique: &Biclique, node: usize) -> (r: Option<Biclique>)
    requires
        graph_valid(*graph),
        edges_nonzero(*graph),
        biclique_valid(*graph, *biclique),
        node < graph.left_nodes.len(),
    ensures
        r matches Some(b) ==> biclique_valid(*graph, b) && b.left@.len() == biclique.left@.len() + 1
            && b.right@.len() == biclique.right@.len(),
        r is Some <==> left_extends(*graph, *biclique, node),
        r matches Some(b) ==> side_pushed(biclique.left@, node, left_extension_coeff(*graph, *biclique, node), b.left@)
            && side_kept(biclique.right@, b.right@) && forall|t: usize| #[trigger] b.terms@.contains(t) <==> biclique.terms@.contains(t)
            || exists|j: int| 0 <= j < biclique.right@.len() && #[trigger] left_edge(*graph, *biclique, node, j).terms@.contains(t),
{
    let ghost g = *graph;
    let ghost b0 = *biclique;
    let first_right = &biclique.right[0];
    let first = match find_edge(graph, node, first_right.0) {
        Some(e) => e,
        None => {
            return None;
        },
    };
    proof {
        lemma_edge_index(g, first as int);
    }
    assert(!is_zero_value(graph.edges@[first as int].1.coeff@));
    let coeff = graph.edges[first].1.coeff.div(&first_right.1);
    assert(coeff@ == left_extension_coeff(g, b0, node));
    let mut added: Vec<usize> = Vec::new();
    let mut j: usize = 0;
    while j < biclique.right.len()
        invariant
            j <= biclique.right.len(),
            forall|x: int| 0 <= x < j ==> has_edge(*graph, node, (#[trigger] biclique.right@[x]).0),
            forall|x: int|
                0 <= x < j ==> (#[trigger] left_edge(g, b0, node, x)).coeff@ == ratio_product(coeff@, b0.right@[x].1@),
            forall|x: int, t: usize|
                0 <= x < j && #[trigger] left_edge(g, b0, node, x).terms@.contains(t) ==> !b0.terms@.contains(t),
            forall|x1: int, x2: int, t: usize|
                0 <= x1 < x2 < j && #[trigger] left_edge(g, b0, node, x2).terms@.contains(t)
                    ==> !(#[trigger] left_edge(g, b0, node, x1).terms@.contains(t)),
            forall|t: usize| #[trigger] added@.contains(t) <==> exists|x: int| 0 <= x < j && #[trigger] left_edge(g, b0, node, x).terms@.contains(t),
        decreases biclique.right.len() - j,
    {
        let (right, right_coeff) = (&biclique.right[j].0, &biclique.right[j].1);
        let e = match find_edge(graph, node, *right) {
            Some(e) => e,
            None => {
                return None;
            },
        };
        proof {
            lemma_edge_index(g, e as int);
        }
        let edge = &graph.edges[e].1;
        assert(*edge == left_edge(g, b0, node, j as int));
        if !edge.coeff.equals(&coeff.mul(right_coeff)) {
            return None;
        }
        if !disjoint(&edge.terms, &biclique.terms) {
            proof {
                let t = choose|t: usize| edge.terms@.contains(t) && biclique.terms@.contains(t);
                assert(left_edge(g, b0, node, j as int).terms@.contains(t));
            }
            return None;
        }
        if !disjoint(&edge.terms, &added) {
            proof {
                let t = choose|t: usize| edge.terms@.contains(t) && added@.contains(t);
                let x = choose|x: int| 0 <= x < j && #[trigger] left_edge(g, b0, node, x).terms@.contains(t);
                assert(left_edge(g, b0, node, j as int).terms@.contains(t));
            }
            return None;
        }
        let ghost before = added@;
        extend_sorted(&mut added, &edge.terms);
        proof {
            assert forall|t: usize| #[trigger] added@.contains(t) <==> exists|x: int| 0 <= x < j + 1 && #[trigger] left_edge(g, b0, node, x).terms@.contains(t) by {
                if added@.contains(t) && !before.contains(t) {
                    assert(left_edge(g, b0, node, j as int).terms@.contains(t));
                }
                if exists|x: int| 0 <= x < j + 1 && #[trigger] left_edge(g, b0, node, x).terms@.contains(t) {
                    let x = choose|x: int| 0 <= x < j + 1 && #[trigger] left_edge(g, b0, node, x).terms@.contains(t);
                    if x < j {
                        assert(before.contains(t));
                    }
                }
            }
        }
        j = j + 1;
    }
    let mut left = copy_sides(&biclique.left);
    let right = copy_sides(&biclique.right);
    let mut terms = copy_positions(&biclique.terms);
    left.push((node, coeff));
    extend_sorted(&mut terms, &added);
    let result = Biclique { left, right, terms };
    proof {
        assert forall|i: int, k: int| 0 <= i < result.left@.len() && 0 <= k < result.right@.len() implies has_edge(*graph, (#[trigger] result.left@[i]).0, (#[trigger] result.right@[k]).0) by {
            if i < biclique.left.len() {
                assert(has_edge(*graph, biclique.left@[i].0, biclique.right@[k].0));
            } else {
                assert(has_edge(*graph, node, biclique.right@[k].0));
            }
        }
        assert forall|i: int| 0 <= i < result.left@.len() implies (#[trigger] result.left@[i]).0 < graph.left_nodes@.len() && !is_zero_value(result.left@[i].1@) by {
            if i < biclique.left.len() {
                assert(result.left@[i].0 == biclique.left@[i].0);
            }
        }
        assert forall|k: int| 0 <= k < result.right@.len() implies (#[trigger] result.right@[k]).0 < graph.right_nodes@.len() && !is_zero_value(result.right@[k].1@) by {
            assert(result.right@[k].0 == biclique.right@[k].0);
        }
        assert(side_pushed(biclique.left@, node, left_extension_coeff(*graph, *biclique, node), result.left@));
        assert(side_kept(biclique.right@, result.right@));
        assert forall|t: usize| #[trigger] result.terms@.contains(t) <==> biclique.terms@.contains(t)
            || exists|x: int| 0 <= x < biclique.right@.len() && #[trigger] left_edge(*graph, *biclique, node, x).terms@.contains(t) by {
            assert(added@.contains(t) <==> exists|x: int| 0 <= x < j && #[trigger] left_edge(g, b0, node, x).terms@.contains(t));
        }
    }
    Some(result)
}

/// Extend the biclique by a right node whose edges from the left nodes are
/// proportional to the left coefficients and cover no term twice.
#[verifier::loop_isolation(false)]
fn add_right(graph: &Graph, biclique: &Biclique, node: usize) -> (r: Option<Biclique>)
    requires
        graph_valid(*graph),
        edges_nonzero(*graph),
        biclique_valid(*graph, *biclique),
        node < graph.right_nodes.len(),
    ensures
        r matches Some(b) ==> biclique_valid(*graph, b) && b.right@.len() == biclique.right@.len() + 1
            && b.left@.len() == biclique.left@.len(),
        r is Some <==> right_extends(*graph, *biclique, node),
        r matches Some(b) ==> side_pushed(biclique.right@, node, right_extension_coeff(*graph, *biclique, node), b.right@)
            && side_kept(biclique.left@, b.left@) && forall|t: usize| #[trigger] b.terms@.contains(t) <==> biclique.terms@.contains(t)
            || exists|j: int| 0 <= j < biclique.left@.len() && #[trigger] right_edge(*graph, *biclique, node, j).terms@.contains(t),
{
    let ghost g = *graph;
    let ghost b0 = *biclique;
    let first_left = &biclique.left[0];
    let first = match find_edge(graph, first_left.0, node) {
        Some(e) => e,
        None => {
            return None;
        },
    };
    proof {
        lemma_edge_index(g, first as int);
    }
    assert(!is_zero_value(graph.edges@[first as int].1.coeff@));
    let coeff = graph.edges[first].1.coeff.div(&first_left.1);
    assert(coeff@ == right_extension_coeff(g, b0, node));
    let mut added: Vec<usize> = Vec::new();
    let mut j: usize = 0;
    while j < biclique.left.len()
        invariant
            j <= biclique.left.len(),
            forall|x: int| 0 <= x < j ==> has_edge(*graph, (#[trigger] biclique.left@[x]).0, node),
            forall|x: int|
                0 <= x < j ==> (#[trigger] right_edge(g, b0, node, x)).coeff@ == ratio_product(b0.left@[x].1@, coeff@),
            forall|x: int, t: usize|
                0 <= x < j && #[trigger] right_edge(g, b0, node, x).terms@.contains(t) ==> !b0.terms@.contains(t),
            forall|x1: int, x2: int, t: usize|
                0 <= x1 < x2 < j && #[trigger] right_edge(g, b0, node, x2).terms@.contains(t)
                    ==> !(#[trigger] right_edge(g, b0, node, x1).terms@.contains(t)),
            forall|t: usize| #[trigger] added@.contains(t) <==> exists|x: int| 0 <= x < j && #[trigger] right_edge(g, b0, node, x).terms@.contains(t),
        decreases biclique.left.len() - j,
    {
        let (left, left_coeff) = (&biclique.left[j].0, &biclique.left[j].1);
        let e = match find_edge(graph, *left, node) {
            Some(e) => e,
            None => {
                return None;
            },
        };
        proof {
            lemma_edge_index(g, e as int);
        }
        let edge = &graph.edges[e].1;
        assert(*edge == right_edge(g, b0, node, j as int));
        if !edge.coeff.equals(&left_coeff.mul(&coeff)) {
            return None;
        }
        if !disjoint(&edge.terms, &biclique.terms) {
            proof {
                let t = choose|t: usize| edge.terms@.contains(t) && biclique.terms@.contains(t);
                assert(right_edge(g, b0, node, j as int).terms@.contains(t));
            }
            return None;
        }
        if !disjoint(&edge.terms, &added) {
            proof {
                let t = choose|t: usize| edge.terms@.contains(t) && added@.contains(t);
                let x = choose|x: int| 0 <= x < j && #[trigger] right_edge(g, b0, node, x).terms@.contains(t);
                assert(right_edge(g, b0, node, j as int).terms@.contains(t));
            }
            return None;
        }
        let ghost before = added@;
        extend_sorted(&mut added, &edge.terms);
        proof {
            assert forall|t: usize| #[trigger] added@.contains(t) <==> exists|x: int| 0 <= x < j + 1 && #[trigger] right_edge(g, b0, node, x).terms@.contains(t) by {
                if added@.contains(t) && !before.contains(t) {
                    assert(right_edge(g, b0, node, j as int).terms@.contains(t));
                }
                if exists|x: int| 0 <= x < j + 1 && #[trigger] right_edge(g, b0, node, x).terms@.contains(t) {
                    let x = choose|x: int| 0 <= x < j + 1 && #[trigger] right_edge(g, b0, node, x).terms@.contains(t);
                    if x < j {
                        assert(before.contains(t));
                    }
                }
            }
        }
        j = j + 1;
    }
    let left = copy_sides(&biclique.left);
    let mut right = copy_sides(&biclique.right);
    let mut terms = copy_positions(&biclique.terms);
    right.push((node, coeff));
    extend_sorted(&mut terms, &added);
    let result = Biclique { left, right, terms };
    proof {
        assert forall|i: int, k: int| 0 <= i < result.left@.len() && 0 <= k < result.right@.len() implies has_edge(*graph, (#[trigger] result.left@[i]).0, (#[trigger] result.right@[k]).0) by {
            if k < biclique.right.len() {
                assert(has_edge(*graph, biclique.left@[i].0, biclique.right@[k].0));
            } else {
                assert(has_edge(*graph, biclique.left@[i].0, node));
            }
        }
        assert forall|i: int| 0 <= i < result.left@.len() implies (#[trigger] result.left@[i]).0 < graph.left_nodes@.len() && !is_zero_value(result.left@[i].1@) by {
            assert(result.left@[i].0 == biclique.left@[i].0);
        }
        assert forall|k: int| 0 <= k < result.right@.len() implies (#[trigger] result.right@[k]).0 < graph.right_nodes@.len() && !is_zero_value(result.right@[k].1@) by {
            if k < biclique.right.len() {
                assert(result.right@[k].0 == biclique.right@[k].0);
            }
        }
        assert(side_pushed(biclique.right@, node, right_extension_coeff(*graph, *biclique, node), result.right@));
        assert(side_kept(biclique.left@, result.left@));
        assert forall|t: usize| #[trigger] result.terms@.contains(t) <==> biclique.terms@.contains(t)
            || exists|x: int| 0 <= x < biclique.left@.len() && #[trigger] right_edge(*graph, *biclique, node, x).terms@.contains(t) by {
            assert(added@.contains(t) <==> exists|x: int| 0 <= x < j && #[trigger] right_edge(g, b0, node, x).terms@.contains(t));
        }
    }
    Some(result)
}

fn side_contains(side: &Vec<(usize, Coefficient)>, node: usize) -> (r: bool)
    ensures
        r == exists|i: int| 0 <= i < side.len() && (#[trigger] side@[i]).0 == node,
{
    let mut k: usize = 0;
    while k < side.len()
        invariant
            k <= side.len(),
            forall|i: int| 0 <= i < k ==> (#[trigger] side@[i]).0 != node,
        decreases side.len() - k,
    {
        if side[k].0 == node {
            return true;
        }
        k = k + 1;
    }
    false
}

/// The node is on the side.
pub open spec fn side_has(side: Seq<(usize, Coefficient)>, node: usize) -> bool {
    exists|i: int| 0 <= i < side.len() && (#[trigger] side[i]).0 == node
}

/// No node outside the biclique extends it.
pub open spec fn maximal_biclique(g: Graph, b: Biclique) -> bool {
    &&& forall|node: usize|
        node < g.left_nodes@.len() && !side_has(b.left@, node) ==> !#[trigger] left_extends(g, b, node)
    &&& forall|node: usize|
        node < g.right_nodes@.len() && !side_has(b.right@, node) ==> !#[trigger] right_extends(g, b, node)
}

/// No node outside the biclique extends it.
#[verifier::loop_isolation(false)]
fn is_maximal(graph: &Graph, biclique: &Biclique) -> (r: bool)
    requires
        graph_valid(*graph),
        edges_nonzero(*graph),
        biclique_valid(*graph, *biclique),
    ensures
        r == maximal_biclique(*graph, *biclique),
{
    let mut node: usize = 0;
    while node < graph.left_nodes.len()
        invariant
            node <= graph.left_nodes.len(),
            forall|n: usize|
                n < node && !side_has(biclique.left@, n) ==> !#[trigger] left_extends(*graph, *biclique, n),
        decreases graph.left_nodes.len() - node,
    {
        if !side_contains(&biclique.left, node) && add_left(graph, biclique, node).is_some() {
            return false;
        }
        node = node + 1;
    }
    let mut node: usize = 0;
    while node < graph.right_nodes.len()
        invariant
            node <= graph.right_nodes.len(),
            forall|n: usize|
                n < graph.left_nodes@.len() && !side_has(biclique.left@, n) ==> !#[trigger] left_extends(*graph, *biclique, n),
            forall|n: usize|
                n < node && !side_has(biclique.right@, n) ==> !#[trigger] right_extends(*graph, *biclique, n),
        decreases graph.right_nodes.len() - node,
    {
        if !side_contains(&biclique.right, node) && add_right(graph, biclique, node).is_some() {
            return false;
        }
        node = node + 1;
    }
    true
}

/// `x` is an entry of `s`.
spec fn drawn_from(x: (usize, Coefficient), s: Seq<(usize, Coefficient)>) -> bool {
    exists|k: int| 0 <= k < s.len() && s[k] == x
}

/// The entries are in nondecreasing order of node.
pub open spec fn nodes_sorted(s: Seq<(usize, Coefficient)>) -> bool {
    forall|a: int, b: int| 0 <= a < b < s.len() ==> (#[trigger] s[a]).0 <= (#[trigger] s[b]).0
}

/// Sort one side stably by node.
fn sort_side(side: Vec<(usize, Coefficient)>) -> (r: Vec<(usize, Coefficient)>)
    ensures
        r.len() == side.len(),
        forall|i: int| 0 <= i < r.len() ==> #[trigger] drawn_from(r@[i], side@),
        nodes_sorted(r@),
        r@.to_multiset() == side@.to_multiset(),
{
    let ghost original = side@;
    let mut pending = side;
    let mut sorted: Vec<(usize, Coefficient)> = Vec::new();
    let ghost mut done: int = 0;
    proof {
        assert(original.subrange(0, 0) =~= Seq::<(usize, Coefficient)>::empty());
    }
    while pending.len() > 0
        invariant
            0 <= done <= original.len(),
            pending@ == original.subrange(done, original.len() as int),
            sorted.len() == done,
            forall|i: int| 0 <= i < sorted.len() ==> #[trigger] drawn_from(sorted@[i], original),
            nodes_sorted(sorted@),
            sorted@.to_multiset() == original.subrange(0, done).to_multiset(),
        decreases pending.len(),
    {
        let entry = pending.remove(0);
        assert(entry == original[done]);
        let mut at: usize = 0;
        while at < sorted.len() && sorted[at].0 <= entry.0
            invariant
                at <= sorted.len(),
                forall|j: int| 0 <= j < at ==> sorted@[j].0 <= entry.0,
            decreases sorted.len() - at,
        {
            at = at + 1;
        }
        let ghost before = sorted@;
        sorted.insert(at, entry);
        proof {
            vstd::seq_lib::to_multiset_insert(before, at as int, entry);
            vstd::seq_lib::to_multiset_build(original.subrange(0, done), entry);
            assert(original.subrange(0, done + 1) =~= original.subrange(0, done).push(entry));
            assert(sorted@ =~= before.insert(at as int, entry));
            assert forall|a: int, b: int| 0 <= a < b < sorted@.len() implies (#[trigger] sorted@[a]).0 <= (#[trigger] sorted@[b]).0 by {
                if b < at {
                    assert(sorted@[a] == before[a] && sorted@[b] == before[b]);
                } else if b == at {
                    assert(sorted@[a] == before[a]);
                } else if a < at {
                    assert(sorted@[a] == before[a] && sorted@[b] == before[b - 1]);
                } else if a == at {
                    assert(sorted@[b] == before[b - 1]);
                    assert(before[at as int].0 > entry.0);
                    assert(before[at as int].0 <= before[b - 1].0);
                } else {
                    assert(sorted@[a] == before[a - 1] && sorted@[b] == before[b - 1]);
                }
            }
        }
        proof {
            assert forall|i: int| 0 <= i < sorted.len() implies #[trigger] drawn_from(sorted@[i], original) by {
                if i < at {
                    assert(sorted@[i] == before[i]);
                    assert(drawn_from(before[i], original));
                } else if i > at {
                    assert(sorted@[i] == before[i - 1]);
                    assert(drawn_from(before[i - 1], original));
                } else {
                    assert(sorted@[i] == original[done]);
                }
            }
            done = done + 1;
            assert(pending@ =~= original.subrange(done, original.len() as int));
        }
    }
    assert(done == original.len());
    assert(original.subrange(0, done) =~= original);
    sorted
}

/// `r` is `b` with both sides sorted by node, the left coefficients divided
/// and the right ones multiplied by the first sorted left coefficient, and the
/// same terms.
pub open spec fn normalized(b: Biclique, r: Biclique) -> bool {
    &&& r.terms@ == b.terms@
    &&& exists|l: Seq<(usize, Coefficient)>, rr: Seq<(usize, Coefficient)>|
        #![trigger l.to_multiset(), rr.to_multiset()]
        {
            &&& l.to_multiset() == b.left@.to_multiset()
            &&& rr.to_multiset() == b.right@.to_multiset()
            &&& nodes_sorted(l)
            &&& nodes_sorted(rr)
            &&& l.len() == r.left@.len()
            &&& rr.len() == r.right@.len()
            &&& forall|i: int|
                0 <= i < l.len() ==> (#[trigger] r.left@[i]).0 == l[i].0 && r.left@[i].1@
                    == crate::coeff::ratio_quotient(l[i].1@, l[0].1@)
            &&& forall|i: int|
                0 <= i < rr.len() ==> (#[trigger] r.right@[i]).0 == rr[i].0 && r.right@[i].1@
                    == ratio_product(rr[i].1@, l[0].1@)
        }
}

/// Sort both sides by node and scale so that the first left coefficient is one.
#[verifier::loop_isolation(false)]
fn normalize_biclique(graph: &Graph, biclique: Biclique) -> (r: Biclique)
    requires
        biclique_valid(*graph, biclique),
    ensures
        biclique_valid(*graph, r),
        r.left@.len() == biclique.left@.len(),
        r.right@.len() == biclique.right@.len(),
        normalized(biclique, r),
{
    let ghost original = biclique;
    let Biclique { left, right, terms } = biclique;
    let left = sort_side(left);
    let right = sort_side(right);
    assert(!is_zero_value(left@[0].1@)) by {
        assert(drawn_from(left@[0], original.left@));
        let k = choose|k: int| 0 <= k < original.left@.len() && original.left@[k] == left@[0];
    }
    let scale = left[0].1.clone();
    let mut scaled_left: Vec<(usize, Coefficient)> = Vec::new();
    let mut k: usize = 0;
    while k < left.len()
        invariant
            k <= left.len(),
            scaled_left.len() == k,
            !is_zero_value(scale@),
            forall|i: int| 0 <= i < k ==> (#[trigger] scaled_left@[i]).0 == left@[i].0 && !is_zero_value(scaled_left@[i].1@),
            forall|i: int| 0 <= i < k ==> (#[trigger] scaled_left@[i]).1@ == crate::coeff::ratio_quotient(left@[i].1@, scale@),
        decreases left.len() - k,
    {
        assert(!is_zero_value(left@[k as int].1@)) by {
            assert(drawn_from(left@[k as int], original.left@));
            let x = choose|x: int| 0 <= x < original.left@.len() && original.left@[x] == left@[k as int];
        }
        scaled_left.push((left[k].0, left[k].1.div(&scale)));
        k = k + 1;
    }
    let mut scaled_right: Vec<(usize, Coefficient)> = Vec::new();
    let mut k: usize = 0;
    while k < right.len()
        invariant
            k <= right.len(),
            scaled_right.len() == k,
            !is_zero_value(scale@),
            forall|i: int| 0 <= i < k ==> (#[trigger] scaled_right@[i]).0 == right@[i].0 && !is_zero_value(scaled_right@[i].1@),
            forall|i: int| 0 <= i < k ==> (#[trigger] scaled_right@[i]).1@ == ratio_product(right@[i].1@, scale@),
        decreases right.len() - k,
    {
        assert(!is_zero_value(right@[k as int].1@)) by {
            assert(drawn_from(right@[k as int], original.right@));
            let x = choose|x: int| 0 <= x < original.right@.len() && original.right@[x] == right@[k as int];
        }
        scaled_right.push((right[k].0, right[k].1.mul(&scale)));
        k = k + 1;
    }
    let result = Biclique { left: scaled_left, right: scaled_right, terms };
    proof {
        assert forall|i: int| 0 <= i < result.left@.len() implies (#[trigger] result.left@[i]).0 < graph.left_nodes@.len() && !is_zero_value(result.left@[i].1@) by {
            assert(drawn_from(left@[i], original.left@));
            let x = choose|x: int| 0 <= x < original.left@.len() && original.left@[x] == left@[i];
        }
        assert forall|j: int| 0 <= j < result.right@.len() implies (#[trigger] result.right@[j]).0 < graph.right_nodes@.len() && !is_zero_value(result.right@[j].1@) by {
            assert(drawn_from(right@[j], original.right@));
            let x = choose|x: int| 0 <= x < original.right@.len() && original.right@[x] == right@[j];
        }
        assert forall|i: int, j: int| 0 <= i < result.left@.len() && 0 <= j < result.right@.len() implies has_edge(*graph, (#[trigger] result.left@[i]).0, (#[trigger] result.right@[j]).0) by {
            assert(drawn_from(left@[i], original.left@));
            assert(drawn_from(right@[j], original.right@));
            let x = choose|x: int| 0 <= x < original.left@.len() && original.left@[x] == left@[i];
            let y = choose|y: int| 0 <= y < original.right@.len() && original.right@[y] == right@[j];
            assert(has_edge(*graph, original.left@[x].0, original.right@[y].0));
        }
    }
    proof {
        assert(left@.to_multiset() == original.left@.to_multiset());
        assert(right@.to_multiset() == original.right@.to_multiset());
        assert(normalized(original, result));
    }
    result
}

/// The nodes of a side, in order.
pub open spec fn side_nodes(side: Seq<(usize, Coefficient)>) -> Seq<usize> {
    side.map_values(|x: (usize, Coefficient)| x.0)
}

/// The left and right nodes of a biclique.
pub open spec fn biclique_key(b: Biclique) -> (Seq<usize>, Seq<usize>) {
    (side_nodes(b.left@), side_nodes(b.right@))
}

/// A recorded biclique: the normalized form of a maximal biclique of the
/// graph with more than one node on some side.
pub open spec fn found_biclique(g: Graph, b: Biclique) -> bool {
    &&& biclique_valid(g, b)
    &&& exists|b0: Biclique|
        #[trigger] maximal_biclique(g, b0) && biclique_valid(g, b0) && normalized(b0, b) && (b0.left@.len() > 1
            || b0.right@.len() > 1)
}

/// The recorded keys are the keys of the results, and no key repeats.
pub open spec fn keys_recorded(seen: Seq<(Vec<usize>, Vec<usize>)>, results: Seq<Biclique>) -> bool {
    &&& seen.len() == results.len()
    &&& forall|k: int| 0 <= k < seen.len() ==> ((#[trigger] seen[k]).0@, seen[k].1@) == biclique_key(results[k])
    &&& forall|a: int, b: int| 0 <= a < b < results.len() ==> biclique_key(#[trigger] results[a]) != biclique_key(#[trigger] results[b])
}

fn node_list(side: &Vec<(usize, Coefficient)>) -> (r: Vec<usize>)
    ensures
        r.len() == side.len(),
        r@ == side_nodes(side@),
{
    let mut r: Vec<usize> = Vec::new();
    let mut k: usize = 0;
    while k < side.len()
        invariant
            k <= side.len(),
            r.len() == k,
            r@ == side_nodes(side@.take(k as int)),
        decreases side.len() - k,
    {
        assert(side_nodes(side@.take(k + 1)) =~= side_nodes(side@.take(k as int)).push(side@[k as int].0));
        r.push(side[k].0);
        k = k + 1;
    }
    assert(side@.take(k as int) =~= side@);
    r
}

/// Every node of `small` is on the same side of `big`.
pub open spec fn holds_nodes(big: Biclique, small: Biclique) -> bool {
    &&& forall|i: int| 0 <= i < small.left@.len() ==> side_has(big.left@, (#[trigger] small.left@[i]).0)
    &&& forall|j: int| 0 <= j < small.right@.len() ==> side_has(big.right@, (#[trigger] small.right@[j]).0)
}

/// No node that the search has already passed extends `b` unless it is in
/// `b`: the left nodes below `index` while on the left, and afterwards every
/// left node and the right nodes below `index`.
spec fn passed_over(g: Graph, b: Biclique, on_left: bool, index: int) -> bool {
    &&& forall|n: usize|
        n < g.left_nodes@.len() && (!on_left || n < index) && !side_has(b.left@, n) ==> !#[trigger] left_extends(g, b, n)
    &&& forall|n: usize|
        !on_left && n < index && n < g.right_nodes@.len() && !side_has(b.right@, n) ==> !#[trigger] right_extends(g, b, n)
}

/// Some node that the search has yet to decide extends `b`.
spec fn extendable_after(g: Graph, b: Biclique, on_left: bool, index: int) -> bool {
    ||| on_left && exists|n: usize|
        index <= n < g.left_nodes@.len() && !side_has(b.left@, n) && #[trigger] left_extends(g, b, n)
    ||| exists|n: usize|
        (!on_left ==> index <= n) && n < g.right_nodes@.len() && !side_has(b.right@, n) && #[trigger] right_extends(g, b, n)
}

/// A node that extends a biclique with more nodes or terms on the other
/// side, or more terms, extends the biclique too.
proof fn lemma_extension_shrinks(g: Graph, b: Biclique, b2: Biclique)
    requires
        b.left@.len() >= 1,
        b.right@.len() >= 1,
        b2.left@.len() >= b.left@.len(),
        b2.right@.len() >= b.right@.len(),
        forall|i: int| 0 <= i < b.left@.len() ==> (#[trigger] b2.left@[i]).0 == b.left@[i].0 && b2.left@[i].1@ == b.left@[i].1@,
        forall|j: int| 0 <= j < b.right@.len() ==> (#[trigger] b2.right@[j]).0 == b.right@[j].0 && b2.right@[j].1@ == b.right@[j].1@,
        forall|t: usize| b.terms@.contains(t) ==> #[trigger] b2.terms@.contains(t),
    ensures
        forall|n: usize| #[trigger] left_extends(g, b2, n) ==> left_extends(g, b, n),
        forall|n: usize| #[trigger] right_extends(g, b2, n) ==> right_extends(g, b, n),
{
    assert forall|n: usize| #[trigger] left_extends(g, b2, n) implies left_extends(g, b, n) by {
        assert(left_extension_coeff(g, b2, n) == left_extension_coeff(g, b, n));
        assert forall|j: int| 0 <= j < b.right@.len() implies #[trigger] left_edge(g, b, n, j) == left_edge(g, b2, n, j) by {}
        assert forall|j: int| 0 <= j < b.right@.len() implies has_edge(g, n, (#[trigger] b.right@[j]).0) by {
            assert(has_edge(g, n, b2.right@[j].0));
        }
        assert forall|j: int| 0 <= j < b.right@.len() implies (#[trigger] left_edge(g, b, n, j)).coeff@ == ratio_product(
            left_extension_coeff(g, b, n),
            b.right@[j].1@,
        ) by {
            assert(left_edge(g, b2, n, j).coeff@ == ratio_product(left_extension_coeff(g, b2, n), b2.right@[j].1@));
        }
        assert forall|j: int, t: usize| 0 <= j < b.right@.len() && #[trigger] left_edge(g, b, n, j).terms@.contains(t) implies !b.terms@.contains(t) by {
            assert(left_edge(g, b2, n, j).terms@.contains(t));
        }
        assert forall|j1: int, j2: int, t: usize|
            0 <= j1 < j2 < b.right@.len() && #[trigger] left_edge(g, b, n, j2).terms@.contains(t)
                implies !(#[trigger] left_edge(g, b, n, j1).terms@.contains(t)) by {
            assert(left_edge(g, b2, n, j2).terms@.contains(t));
            assert(left_edge(g, b2, n, j1) == left_edge(g, b, n, j1));
        }
    }
    assert forall|n: usize| #[trigger] right_extends(g, b2, n) implies right_extends(g, b, n) by {
        assert(right_extension_coeff(g, b2, n) == right_extension_coeff(g, b, n));
        assert forall|j: int| 0 <= j < b.left@.len() implies #[trigger] right_edge(g, b, n, j) == right_edge(g, b2, n, j) by {}
        assert forall|j: int| 0 <= j < b.left@.len() implies has_edge(g, (#[trigger] b.left@[j]).0, n) by {
            assert(has_edge(g, b2.left@[j].0, n));
        }
        assert forall|j: int| 0 <= j < b.left@.len() implies (#[trigger] right_edge(g, b, n, j)).coeff@ == ratio_product(
            b.left@[j].1@,
            right_extension_coeff(g, b, n),
        ) by {
            assert(right_edge(g, b2, n, j).coeff@ == ratio_product(b2.left@[j].1@, right_extension_coeff(g, b2, n)));
        }
        assert forall|j: int, t: usize| 0 <= j < b.left@.len() && #[trigger] right_edge(g, b, n, j).terms@.contains(t) implies !b.terms@.contains(t) by {
            assert(right_edge(g, b2, n, j).terms@.contains(t));
        }
        assert forall|j1: int, j2: int, t: usize|
            0 <= j1 < j2 < b.left@.len() && #[trigger] right_edge(g, b, n, j2).terms@.contains(t)
                implies !(#[trigger] right_edge(g, b, n, j1).terms@.contains(t)) by {
            assert(right_edge(g, b2, n, j2).terms@.contains(t));
            assert(right_edge(g, b2, n, j1) == right_edge(g, b, n, j1));
        }
    }
}

/// Sides with the same nodes in the same order hold the same nodes.
proof fn lemma_same_side_nodes(a: Seq<(usize, Coefficient)>, b: Seq<(usize, Coefficient)>)
    requires
        side_nodes(a) == side_nodes(b),
    ensures
        forall|x: usize| #[trigger] side_has(a, x) == side_has(b, x),
{
    assert forall|x: usize| #[trigger] side_has(a, x) == side_has(b, x) by {
        if side_has(a, x) {
            let i = choose|i: int| 0 <= i < a.len() && (#[trigger] a[i]).0 == x;
            assert(side_nodes(a)[i] == x);
            assert(side_nodes(a).len() == a.len() && side_nodes(b).len() == b.len());
            assert(side_nodes(b)[i] == b[i].0);
        }
        if side_has(b, x) {
            let i = choose|i: int| 0 <= i < b.len() && (#[trigger] b[i]).0 == x;
            assert(side_nodes(b)[i] == x);
            assert(side_nodes(a).len() == a.len() && side_nodes(b).len() == b.len());
            assert(side_nodes(a)[i] == a[i].0);
        }
    }
}

/// A normalized biclique has the nodes of the biclique it came from.
proof fn lemma_normalized_holds(b: Biclique, r: Biclique)
    requires
        normalized(b, r),
    ensures
        holds_nodes(r, b),
{
    let (l, rr) = choose|l: Seq<(usize, Coefficient)>, rr: Seq<(usize, Coefficient)>|
        #![trigger l.to_multiset(), rr.to_multiset()]
        {
            &&& l.to_multiset() == b.left@.to_multiset()
            &&& rr.to_multiset() == b.right@.to_multiset()
            &&& nodes_sorted(l)
            &&& nodes_sorted(rr)
            &&& l.len() == r.left@.len()
            &&& rr.len() == r.right@.len()
            &&& forall|i: int|
                0 <= i < l.len() ==> (#[trigger] r.left@[i]).0 == l[i].0 && r.left@[i].1@
                    == crate::coeff::ratio_quotient(l[i].1@, l[0].1@)
            &&& forall|i: int|
                0 <= i < rr.len() ==> (#[trigger] r.right@[i]).0 == rr[i].0 && r.right@[i].1@
                    == ratio_product(rr[i].1@, l[0].1@)
        };
    assert forall|i: int| 0 <= i < b.left@.len() implies side_has(r.left@, (#[trigger] b.left@[i]).0) by {
        let v = b.left@[i];
        assert(b.left@.contains(v));
        vstd::seq_lib::to_multiset_contains(b.left@, v);
        vstd::seq_lib::to_multiset_contains(l, v);
        let m = choose|m: int| 0 <= m < l.len() && l[m] == v;
        assert(r.left@[m].0 == v.0);
    }
    assert forall|j: int| 0 <= j < b.right@.len() implies side_has(r.right@, (#[trigger] b.right@[j]).0) by {
        let v = b.right@[j];
        assert(b.right@.contains(v));
        vstd::seq_lib::to_multiset_contains(b.right@, v);
        vstd::seq_lib::to_multiset_contains(rr, v);
        let m = choose|m: int| 0 <= m < rr.len() && rr[m] == v;
        assert(r.right@[m].0 == v.0);
    }
}

/// Decide the nodes one at a time, the left nodes from `index` on and then
/// every right node (or the right nodes from `index` on), and record each
/// maximal biclique with more than one node on some side, once.
#[verifier::loop_isolation(false)]
fn search_bicliques(
    graph: &Graph,
    biclique: Biclique,
    on_left: bool,
    index: usize,
    seen: &mut Vec<(Vec<usize>, Vec<usize>)>,
    results: &mut Vec<Biclique>,
)
    requires
        graph_valid(*graph),
        edges_nonzero(*graph),
        biclique_valid(*graph, biclique),
        forall|k: int| 0 <= k < old(results).len() ==> biclique_valid(*graph, #[trigger] old(results)@[k]),
        keys_recorded(old(seen)@, old(results)@),
    ensures
        forall|k: int| 0 <= k < final(results).len() ==> biclique_valid(*graph, #[trigger] final(results)@[k]),
        keys_recorded(final(seen)@, final(results)@),
        final(results)@.len() >= old(results)@.len(),
        forall|k: int| 0 <= k < old(results)@.len() ==> final(results)@[k] == old(results)@[k],
        forall|k: int| old(results)@.len() <= k < final(results)@.len() ==> found_biclique(*graph, #[trigger] final(results)@[k]),
        passed_over(*graph, biclique, on_left, index as int) && (biclique.left@.len() > 1 || biclique.right@.len() > 1
            || extendable_after(*graph, biclique, on_left, index as int)) ==> exists|k: int|
            0 <= k < final(results)@.len() && holds_nodes(#[trigger] final(results)@[k], biclique),
    decreases (if on_left { 1int } else { 0int }), (if on_left { graph.left_nodes@.len() - index } else { graph.right_nodes@.len() - index }),
{
    let ghost claim = passed_over(*graph, biclique, on_left, index as int) && (biclique.left@.len() > 1
        || biclique.right@.len() > 1 || extendable_after(*graph, biclique, on_left, index as int));
    if on_left && index >= graph.left_nodes.len() {
        proof {
            if claim {
                assert(passed_over(*graph, biclique, false, 0));
                if extendable_after(*graph, biclique, on_left, index as int) {
                    assert(extendable_after(*graph, biclique, false, 0));
                }
            }
        }
        search_bicliques(graph, biclique, false, 0, seen, results);
        return;
    }
    if !on_left && index >= graph.right_nodes.len() {
        proof {
            if claim {
                assert(!extendable_after(*graph, biclique, on_left, index as int));
                assert(maximal_biclique(*graph, biclique));
            }
        }
        if (biclique.left.len() > 1 || biclique.right.len() > 1) && is_maximal(graph, &biclique) {
            let ghost b0 = biclique;
            let biclique = normalize_biclique(graph, biclique);
            let left_key = node_list(&biclique.left);
            let right_key = node_list(&biclique.right);
            let mut present = false;
            let mut k: usize = 0;
            while k < seen.len()
                invariant
                    k <= seen.len(),
                    present <==> exists|j: int| 0 <= j < k && (#[trigger] seen@[j]).0@ == left_key@ && seen@[j].1@ == right_key@,
                decreases seen.len() - k,
            {
                if crate::order::compare_usizes(&seen[k].0, &left_key) == 0 && crate::order::compare_usizes(&seen[k].1, &right_key) == 0 {
                    present = true;
                }
                k = k + 1;
            }
            if !present {
                let ghost (s0, r0) = (seen@, results@);
                seen.push((left_key, right_key));
                results.push(biclique);
                proof {
                    assert(found_biclique(*graph, results@[r0.len() as int])) by {
                        assert(maximal_biclique(*graph, b0));
                    }
                    assert forall|a: int, b: int| 0 <= a < b < results@.len() implies biclique_key(#[trigger] results@[a])
                        != biclique_key(#[trigger] results@[b]) by {
                        if b == r0.len() {
                            assert(((s0[a]).0@, s0[a].1@) == biclique_key(r0[a]));
                            assert(results@[a] == r0[a]);
                        } else {
                            assert(results@[a] == r0[a] && results@[b] == r0[b]);
                        }
                    }
                    assert forall|k2: int| 0 <= k2 < seen@.len() implies ((#[trigger] seen@[k2]).0@, seen@[k2].1@) == biclique_key(results@[k2]) by {
                        if k2 < s0.len() {
                            assert(seen@[k2] == s0[k2] && results@[k2] == r0[k2]);
                        }
                    }
                    lemma_normalized_holds(b0, results@[r0.len() as int]);
                }
            } else {
                proof {
                    let j = choose|j: int| 0 <= j < k && (#[trigger] seen@[j]).0@ == left_key@ && seen@[j].1@ == right_key@;
                    assert(((seen@[j]).0@, seen@[j].1@) == biclique_key(results@[j]));
                    lemma_same_side_nodes(results@[j].left@, biclique.left@);
                    lemma_same_side_nodes(results@[j].right@, biclique.right@);
                    lemma_normalized_holds(b0, biclique);
                    assert(holds_nodes(results@[j], b0));
                }
            }
        }
        return;
    }
    let ghost mut held = false;
    if on_left {
        if side_contains(&biclique.left, index) {
            proof {
                if claim {
                    assert(passed_over(*graph, biclique, on_left, index + 1));
                    if extendable_after(*graph, biclique, on_left, index as int) {
                        assert(extendable_after(*graph, biclique, on_left, index + 1));
                    }
                }
            }
            search_bicliques(graph, biclique, true, index + 1, seen, results);
            return;
        }
        match add_left(graph, &biclique, index) {
            Some(next) => {
                proof {
                    lemma_extension_shrinks(*graph, biclique, next);
                    if claim {
                        assert(passed_over(*graph, next, true, index + 1)) by {
                            assert forall|n: usize|
                                n < graph.left_nodes@.len() && n < index + 1 && !side_has(next.left@, n)
                                    implies !#[trigger] left_extends(*graph, next, n) by {
                                if side_has(biclique.left@, n) {
                                    let i = choose|i: int| 0 <= i < biclique.left@.len() && (#[trigger] biclique.left@[i]).0 == n;
                                    assert(next.left@[i].0 == n);
                                }
                                assert(next.left@[biclique.left@.len() as int].0 == index);
                            }
                        }
                    }
                }
                let ghost before = results@;
                search_bicliques(graph, next, true, index + 1, seen, results);
                proof {
                    if claim {
                        let k = choose|k: int| 0 <= k < results@.len() && holds_nodes(#[trigger] results@[k], next);
                        assert forall|i: int| 0 <= i < biclique.left@.len() implies side_has(results@[k].left@, (#[trigger] biclique.left@[i]).0) by {
                            assert(next.left@[i].0 == biclique.left@[i].0);
                        }
                        assert forall|j: int| 0 <= j < biclique.right@.len() implies side_has(results@[k].right@, (#[trigger] biclique.right@[j]).0) by {
                            assert(next.right@[j].0 == biclique.right@[j].0);
                        }
                        assert(holds_nodes(results@[k], biclique));
                        held = true;
                    }
                }
            },
            None => {},
        }
    } else {
        if side_contains(&biclique.right, index) {
            proof {
                if claim {
                    assert(passed_over(*graph, biclique, on_left, index + 1));
                    if extendable_after(*graph, biclique, on_left, index as int) {
                        assert(extendable_after(*graph, biclique, on_left, index + 1));
                    }
                }
            }
            search_bicliques(graph, biclique, false, index + 1, seen, results);
            return;
        }
        match add_right(graph, &biclique, index) {
            Some(next) => {
                proof {
                    lemma_extension_shrinks(*graph, biclique, next);
                    if claim {
                        assert(passed_over(*graph, next, false, index + 1)) by {
                            assert forall|n: usize|
                                n < graph.right_nodes@.len() && n < index + 1 && !side_has(next.right@, n)
                                    implies !#[trigger] right_extends(*graph, next, n) by {
                                if side_has(biclique.right@, n) {
                                    let i = choose|i: int| 0 <= i < biclique.right@.len() && (#[trigger] biclique.right@[i]).0 == n;
                                    assert(next.right@[i].0 == n);
                                }
                                assert(next.right@[biclique.right@.len() as int].0 == index);
                            }
                            assert forall|n: usize|
                                n < graph.left_nodes@.len() && !side_has(next.left@, n)
                                    implies !#[trigger] left_extends(*graph, next, n) by {
                                if side_has(biclique.left@, n) {
                                    let i = choose|i: int| 0 <= i < biclique.left@.len() && (#[trigger] biclique.left@[i]).0 == n;
                                    assert(next.left@[i].0 == n);
                                }
                            }
                        }
                    }
                }
                search_bicliques(graph, next, false, index + 1, seen, results);
                proof {
                    if claim {
                        let k = choose|k: int| 0 <= k < results@.len() && holds_nodes(#[trigger] results@[k], next);
                        assert forall|i: int| 0 <= i < biclique.left@.len() implies side_has(results@[k].left@, (#[trigger] biclique.left@[i]).0) by {
                            assert(next.left@[i].0 == biclique.left@[i].0);
                        }
                        assert forall|j: int| 0 <= j < biclique.right@.len() implies side_has(results@[k].right@, (#[trigger] biclique.right@[j]).0) by {
                            assert(next.right@[j].0 == biclique.right@[j].0);
                        }
                        assert(holds_nodes(results@[k], biclique));
                        held = true;
                    }
                }
            },
            None => {},
        }
    }
    let ghost mid = results@;
    proof {
        if claim && !held {
            assert(passed_over(*graph, biclique, on_left, index + 1));
            if extendable_after(*graph, biclique, on_left, index as int) {
                assert(extendable_after(*graph, biclique, on_left, index + 1));
            }
        }
    }
    search_bicliques(graph, biclique, on_left, index + 1, seen, results);
    proof {
        if claim && held {
            let k = choose|k: int| 0 <= k < mid.len() && holds_nodes(#[trigger] mid[k], biclique);
            assert(results@[k] == mid[k]);
        }
    }
}

/// `b` is the biclique of edge `e` alone: its left node with coefficient one
/// and its right node with the edge's coefficient, over the edge's terms.
pub open spec fn edge_alone(g: Graph, e: int, b: Biclique) -> bool {
    &&& b.left@.len() == 1
    &&& b.left@[0].0 == g.edges@[e].0.0
    &&& b.left@[0].1@ == crate::coeff::ratio_of_integer(1)
    &&& b.right@.len() == 1
    &&& b.right@[0].0 == g.edges@[e].0.1
    &&& b.right@[0].1@ == g.edges@[e].1.coeff@
    &&& b.terms@ == g.edges@[e].1.terms@
}

/// The biclique of edge `e` alone.
pub open spec fn edge_biclique(g: Graph, e: int) -> Biclique {
    choose|b: Biclique| edge_alone(g, e, b)
}

/// Whether a node extends the biclique of an edge alone does not depend on
/// how that biclique is held.
proof fn lemma_edge_alone_maximal(g: Graph, e: int, a: Biclique, b: Biclique)
    requires
        edge_alone(g, e, a),
        edge_alone(g, e, b),
    ensures
        maximal_biclique(g, a) == maximal_biclique(g, b),
{
    assert forall|n: usize| #[trigger] left_extends(g, a, n) == left_extends(g, b, n) by {
        assert(left_edge(g, a, n, 0) == left_edge(g, b, n, 0));
        assert(left_extension_coeff(g, a, n) == left_extension_coeff(g, b, n));
        assert(a.terms@ == b.terms@);
    }
    assert forall|n: usize| #[trigger] right_extends(g, a, n) == right_extends(g, b, n) by {
        assert(right_edge(g, a, n, 0) == right_edge(g, b, n, 0));
        assert(right_extension_coeff(g, a, n) == right_extension_coeff(g, b, n));
        assert(a.terms@ == b.terms@);
    }
    assert forall|n: usize| #[trigger] side_has(a.left@, n) == side_has(b.left@, n) by {
        if side_has(a.left@, n) {
            assert(b.left@[0].0 == n);
        }
        if side_has(b.left@, n) {
            assert(a.left@[0].0 == n);
        }
    }
    assert forall|n: usize| #[trigger] side_has(a.right@, n) == side_has(b.right@, n) by {
        if side_has(a.right@, n) {
            assert(b.right@[0].0 == n);
        }
        if side_has(b.right@, n) {
            assert(a.right@[0].0 == n);
        }
    }
    if maximal_biclique(g, a) {
        assert forall|node: usize| node < g.left_nodes@.len() && !side_has(b.left@, node) implies !#[trigger] left_extends(g, b, node) by {
            assert(side_has(a.left@, node) == side_has(b.left@, node));
            assert(left_extends(g, a, node) == left_extends(g, b, node));
        }
        assert forall|node: usize| node < g.right_nodes@.len() && !side_has(b.right@, node) implies !#[trigger] right_extends(g, b, node) by {
            assert(side_has(a.right@, node) == side_has(b.right@, node));
            assert(right_extends(g, a, node) == right_extends(g, b, node));
        }
    }
    if maximal_biclique(g, b) {
        assert forall|node: usize| node < g.left_nodes@.len() && !side_has(a.left@, node) implies !#[trigger] left_extends(g, a, node) by {
            assert(side_has(a.left@, node) == side_has(b.left@, node));
            assert(left_extends(g, a, node) == left_extends(g, b, node));
        }
        assert forall|node: usize| node < g.right_nodes@.len() && !side_has(a.right@, node) implies !#[trigger] right_extends(g, a, node) by {
            assert(side_has(a.right@, node) == side_has(b.right@, node));
            assert(right_extends(g, a, node) == right_extends(g, b, node));
        }
    }
}

/// Some result holds both nodes of edge `e`.
pub open spec fn edge_recorded(g: Graph, e: int, results: Seq<Biclique>) -> bool {
    exists|k: int| 0 <= k < results.len() && side_has((#[trigger] results[k]).left@, g.edges@[e].0.0) && side_has(results[k].right@, g.edges@[e].0.1)
}

/// The maximal bicliques of a graph, grown from each edge in key order.
/// Every edge that some other node would join lies in a found biclique.
pub fn enumerate_bicliques(graph: &Graph) -> (r: Vec<Biclique>)
    requires
        graph_valid(*graph),
        edges_nonzero(*graph),
    ensures
        forall|k: int| 0 <= k < r.len() ==> biclique_valid(*graph, #[trigger] r@[k]),
        forall|k: int| 0 <= k < r.len() ==> found_biclique(*graph, #[trigger] r@[k]),
        forall|a: int, b: int| 0 <= a < b < r.len() ==> biclique_key(#[trigger] r@[a]) != biclique_key(#[trigger] r@[b]),
        forall|e: int|
            0 <= e < graph.edges@.len() && !maximal_biclique(*graph, #[trigger] edge_biclique(*graph, e)) ==> edge_recorded(
                *graph,
                e,
                r@,
            ),
{
    let mut results: Vec<Biclique> = Vec::new();
    let mut seen: Vec<(Vec<usize>, Vec<usize>)> = Vec::new();
    let mut e: usize = 0;
    while e < graph.edges.len()
        invariant
            e <= graph.edges.len(),
            graph_valid(*graph),
            edges_nonzero(*graph),
            forall|k: int| 0 <= k < results.len() ==> biclique_valid(*graph, #[trigger] results@[k]),
            forall|k: int| 0 <= k < results.len() ==> found_biclique(*graph, #[trigger] results@[k]),
            keys_recorded(seen@, results@),
            forall|e2: int|
                0 <= e2 < e && !maximal_biclique(*graph, #[trigger] edge_biclique(*graph, e2)) ==> edge_recorded(
                    *graph,
                    e2,
                    results@,
                ),
        decreases graph.edges.len() - e,
    {
        let (l, r) = graph.edges[e].0;
        let edge = &graph.edges[e].1;
        let mut left: Vec<(usize, Coefficient)> = Vec::new();
        left.push((l, Coefficient::from_integer(1)));
        let mut right: Vec<(usize, Coefficient)> = Vec::new();
        right.push((r, edge.coeff.clone()));
        let biclique = Biclique { left, right, terms: copy_positions(&edge.terms) };
        proof {
            assert(graph.edges@[e as int].0 == (l, r));
            assert(has_edge(*graph, l, r));
            assert(!is_zero_value(graph.edges@[e as int].1.coeff@));
        }
        let ghost before = results@;
        proof {
            assert(edge_alone(*graph, e as int, biclique));
            lemma_edge_alone_maximal(*graph, e as int, biclique, edge_biclique(*graph, e as int));
            if !maximal_biclique(*graph, biclique) {
                assert(extendable_after(*graph, biclique, true, 0));
            }
        }
        search_bicliques(graph, biclique, true, 0, &mut seen, &mut results);
        proof {
            assert forall|e2: int|
                0 <= e2 < e + 1 && !maximal_biclique(*graph, #[trigger] edge_biclique(*graph, e2)) implies edge_recorded(
                    *graph,
                    e2,
                    results@,
                ) by {
                if e2 < e {
                    let k = choose|k: int| 0 <= k < before.len() && side_has((#[trigger] before[k]).left@, graph.edges@[e2].0.0)
                        && side_has(before[k].right@, graph.edges@[e2].0.1);
                    assert(results@[k] == before[k]);
                } else {
                    let k = choose|k: int| 0 <= k < results@.len() && holds_nodes(#[trigger] results@[k], biclique);
                    assert(side_has(results@[k].left@, biclique.left@[0].0));
                    assert(side_has(results@[k].right@, biclique.right@[0].0));
                }
            }
        }
        e = e + 1;
    }
    results
}

// ----------------------------------------------------------------------------
// Actions
// ----------------------------------------------------------------------------

/// An invalid biclique-factorization choice.
#[derive(Clone, Copy, Debug, PartialEq, Eq, Structural)]
pub enum BicliqueChoiceError {
    CandidateOutOfBounds { index: usize, len: usize },
    WrongLeftMaskLength { expected: usize, got: usize },
    WrongRightMaskLength { expected: usize, got: usize },
    EmptySide,
}

/// The abstract form of a biclique action.
pub struct BicliqueActionView {
    pub target: DefinitionPosition,
    pub terms: Seq<usize>,
    pub children: (TensorDefView, TensorDefView),
    pub contracted: Seq<Index>,
}

/// One validated biclique factorization choice.
#[derive(Debug, PartialEq, Eq)]
pub struct BicliqueAction {
    target: DefinitionPosition,
    terms: Vec<usize>,
    children: (TensorDef, TensorDef),
    contracted: Vec<Index>,
}

impl View for BicliqueAction {
    type V = BicliqueActionView;

    closed spec fn view(&self) -> BicliqueActionView {
        BicliqueActionView {
            target: self.target,
            terms: self.terms@,
            children: (self.children.0@, self.children.1@),
            contracted: self.contracted@,
        }
    }
}

impl BicliqueAction {
    pub fn target(&self) -> (r: DefinitionPosition)
        ensures
            r == self@.target,
    {
        self.target
    }
}

impl Clone for BicliqueAction {
    fn clone(&self) -> (r: Self)
        ensures
            r@ == self@,
    {
        let terms = copy_positions(&self.terms);
        let contracted = self.contracted.clone();
        assert(contracted@ =~= self.contracted@);
        BicliqueAction {
            target: self.target,
            terms,
            children: (self.children.0.clone(), self.children.1.clone()),
            contracted,
        }
    }
}

/// A child definition: the selected nodes, each scaled by its coefficient.
fn side_definition(base: TensorId, exts: &Vec<Index>, nodes: &Vec<Term>, selected: &Vec<(usize, Coefficient)>) -> (r: TensorDef)
    requires
        forall|k: int| 0 <= k < selected.len() ==> (#[trigger] selected@[k]).0 < nodes.len(),
    ensures
        (forall|k: int| 0 <= k < selected.len() ==> !is_zero_value((#[trigger] selected@[k]).1@) && !is_zero_value(nodes@[selected@[k].0 as int]@.coeff))
            ==> forall|k: int| 0 <= k < selected.len() ==> !is_zero_value((#[trigger] r@.rhs[k]).coeff),
        r@.base == base,
        r@.exts == exts@,
        r@.rhs.len() == selected.len(),
        forall|k: int| 0 <= k < selected.len() ==> (#[trigger] r@.rhs[k]).sums == nodes@[selected@[k].0 as int]@.sums
            && r@.rhs[k].factors == nodes@[selected@[k].0 as int]@.factors && r@.rhs[k].coeff == ratio_product(
            nodes@[selected@[k].0 as int]@.coeff,
            selected@[k].1@,
        ),
{
    let mut rhs: Vec<Term> = Vec::new();
    let mut k: usize = 0;
    while k < selected.len()
        invariant
            k <= selected.len(),
            forall|j: int| 0 <= j < selected.len() ==> (#[trigger] selected@[j]).0 < nodes.len(),
            rhs.len() == k,
            (forall|x: int| 0 <= x < selected.len() ==> !is_zero_value((#[trigger] selected@[x]).1@) && !is_zero_value(nodes@[selected@[x].0 as int]@.coeff))
                ==> forall|j: int| 0 <= j < k ==> !is_zero_value((#[trigger] rhs@[j])@.coeff),
            forall|j: int| 0 <= j < k ==> (#[trigger] rhs@[j])@.sums == nodes@[selected@[j].0 as int]@.sums
                && rhs@[j]@.factors == nodes@[selected@[j].0 as int]@.factors && rhs@[j]@.coeff == ratio_product(
                nodes@[selected@[j].0 as int]@.coeff,
                selected@[j].1@,
            ),
        decreases selected.len() - k,
    {
        let (node, coeff) = (&selected[k].0, &selected[k].1);
        let mut term = nodes[*node].clone();
        term.coeff = term.coeff.mul(coeff);
        rhs.push(term);
        k = k + 1;
    }
    let exts = exts.clone();
    let r = TensorDef { base, exts, rhs };
    proof {
        assert(r@.exts =~= exts@);
        assert forall|j: int| 0 <= j < selected.len() implies (#[trigger] r@.rhs[j]).sums == nodes@[selected@[j].0 as int]@.sums
            && r@.rhs[j].factors == nodes@[selected@[j].0 as int]@.factors && r@.rhs[j].coeff == ratio_product(
            nodes@[selected@[j].0 as int]@.coeff,
            selected@[j].1@,
        ) by {
            assert(r@.rhs[j] == rhs@[j]@);
        }
        if forall|x: int| 0 <= x < selected.len() ==> !is_zero_value((#[trigger] selected@[x]).1@) && !is_zero_value(nodes@[selected@[x].0 as int]@.coeff) {
            assert forall|j: int| 0 <= j < selected.len() implies !is_zero_value((#[trigger] r@.rhs[j]).coeff) by {
                assert(r@.rhs[j] == rhs@[j]@);
            }
        }
    }
    r
}

/// Some entry of `side` has this node and coefficient.
spec fn listed(node: usize, coeff: CoeffView, side: Seq<(usize, Coefficient)>) -> bool {
    exists|i: int| 0 <= i < side.len() && side[i].0 == node && side[i].1@ == coeff
}

/// The nodes of a side with their coefficients as values.
pub open spec fn side_view(side: Seq<(usize, Coefficient)>) -> Seq<(usize, CoeffView)> {
    side.map_values(|e: (usize, Coefficient)| (e.0, e.1@))
}

/// The entries of a side whose mask entry is set.
fn select_side(side: &Vec<(usize, Coefficient)>, mask: &[bool]) -> (r: Vec<(usize, Coefficient)>)
    ensures
        r.len() <= side.len(),
        forall|k: int| 0 <= k < r.len() ==> #[trigger] listed(r@[k].0, r@[k].1@, side@),
        mask.len() == side.len() && (forall|k: int| 0 <= k < mask.len() ==> mask@[k]) ==> r.len() == side.len(),
        mask.len() == side.len() ==> side_view(r@) == selected(side_view(side@), mask@, side.len() as nat),
{
    let mut r: Vec<(usize, Coefficient)> = Vec::new();
    let mut k: usize = 0;
    while k < side.len() && k < mask.len()
        invariant
            k <= side.len(),
            r.len() <= k,
            forall|j: int| 0 <= j < r.len() ==> #[trigger] listed(r@[j].0, r@[j].1@, side@),
            mask.len() == side.len() && (forall|x: int| 0 <= x < mask.len() ==> mask@[x]) ==> r.len() == k,
            mask.len() == side.len() ==> side_view(r@) == selected(side_view(side@), mask@, k as nat),
        decreases side.len() - k,
    {
        if mask[k] {
            let ghost before = r@;
            r.push((side[k].0, side[k].1.clone()));
            proof {
                assert(side_view(r@) =~= side_view(before).push(side_view(side@)[k as int]));
            }
            proof {
                assert forall|j: int| 0 <= j < r.len() implies #[trigger] listed(r@[j].0, r@[j].1@, side@) by {
                    if j < before.len() {
                        assert(r@[j] == before[j]);
                        assert(listed(before[j].0, before[j].1@, side@));
                    } else {
                        assert(r@[j].0 == side@[k as int].0);
                    }
                }
            }
        }
        k = k + 1;
    }
    r
}

/// The definition of one child: the term of each chosen node scaled by the
/// node's coefficient.
pub open spec fn child_definition(
    base: TensorId,
    exts: Seq<Index>,
    nodes: Seq<Term>,
    chosen: Seq<(usize, CoeffView)>,
) -> TensorDefView {
    TensorDefView {
        base,
        exts,
        rhs: chosen.map_values(
            |e: (usize, CoeffView)|
                TermView {
                    sums: nodes[e.0 as int]@.sums,
                    coeff: ratio_product(nodes[e.0 as int]@.coeff, e.1),
                    factors: nodes[e.0 as int]@.factors,
                },
        ),
    }
}

/// An edge between a chosen left node and a chosen right node stands for
/// term `x`.
pub open spec fn covers(g: Graph, left: Seq<(usize, CoeffView)>, right: Seq<(usize, CoeffView)>, x: usize) -> bool {
    exists|i: int, j: int, e: int|
        #![trigger left[i], right[j], g.edges@[e]]
        0 <= i < left.len() && 0 <= j < right.len() && 0 <= e < g.edges@.len() && g.edges@[e].0 == (
            left[i].0,
            right[j].0,
        ) && g.edges@[e].1.terms@.contains(x)
}

/// `a` is the action for the nodes of biclique `b` of graph `g` that the
/// masks select: the two children, the contracted indices of the graph, and
/// the terms that the selected edges stand for, in increasing order.
pub open spec fn biclique_action(
    target: DefinitionPosition,
    base: TensorId,
    g: Graph,
    b: Biclique,
    left_mask: Seq<bool>,
    right_mask: Seq<bool>,
    a: BicliqueActionView,
) -> bool {
    let left = selected(side_view(b.left@), left_mask, b.left@.len());
    let right = selected(side_view(b.right@), right_mask, b.right@.len());
    &&& a.target == target
    &&& a.children.0 == child_definition(base, g.left_exts@, g.left_nodes@, left)
    &&& a.children.1 == child_definition(base, g.right_exts@, g.right_nodes@, right)
    &&& a.contracted == g.contracted@
    &&& ascending(a.terms)
    &&& forall|x: usize| a.terms.contains(x) <==> covers(g, left, right, x)
}

/// The action for the selected nodes of a biclique.
#[verifier::loop_isolation(false)]
fn make_action(
    target: DefinitionPosition,
    base: TensorId,
    graph: &Graph,
    biclique: &Biclique,
    left_mask: &[bool],
    right_mask: &[bool],
) -> (r: BicliqueAction)
    requires
        graph_valid(*graph),
        biclique_valid(*graph, *biclique),
    ensures
        r@.target == target,
        r@.children.0.base == base,
        r@.children.1.base == base,
        left_mask.len() == biclique.left@.len() && (forall|k: int| 0 <= k < left_mask.len() ==> left_mask@[k])
            && right_mask.len() == biclique.right@.len() && (forall|k: int| 0 <= k < right_mask.len() ==> right_mask@[k])
            ==> action_scalable(r),
        left_mask.len() == biclique.left@.len() && right_mask.len() == biclique.right@.len() ==> biclique_action(
            target,
            base,
            *graph,
            *biclique,
            left_mask@,
            right_mask@,
            r@,
        ),
{
    let left = select_side(&biclique.left, left_mask);
    let right = select_side(&biclique.right, right_mask);
    proof {
        assert forall|k: int| 0 <= k < left.len() implies (#[trigger] left@[k]).0 < graph.left_nodes.len() by {
            assert(listed(left@[k].0, left@[k].1@, biclique.left@));
            let i = choose|i: int| 0 <= i < biclique.left@.len() && biclique.left@[i].0 == left@[k].0 && biclique.left@[i].1@ == left@[k].1@;
            assert(biclique.left@[i].0 < graph.left_nodes@.len());
        }
        assert forall|k: int| 0 <= k < left.len() implies !is_zero_value((#[trigger] left@[k]).1@) && !is_zero_value(graph.left_nodes@[left@[k].0 as int]@.coeff) by {
            assert(listed(left@[k].0, left@[k].1@, biclique.left@));
            let i = choose|i: int| 0 <= i < biclique.left@.len() && biclique.left@[i].0 == left@[k].0 && biclique.left@[i].1@ == left@[k].1@;
            assert(biclique.left@[i].0 < graph.left_nodes@.len() && !is_zero_value(biclique.left@[i].1@));
        }
        assert forall|k: int| 0 <= k < right.len() implies !is_zero_value((#[trigger] right@[k]).1@) && !is_zero_value(graph.right_nodes@[right@[k].0 as int]@.coeff) by {
            assert(listed(right@[k].0, right@[k].1@, biclique.right@));
            let i = choose|i: int| 0 <= i < biclique.right@.len() && biclique.right@[i].0 == right@[k].0 && biclique.right@[i].1@ == right@[k].1@;
            assert(biclique.right@[i].0 < graph.right_nodes@.len() && !is_zero_value(biclique.right@[i].1@));
        }
        assert forall|k: int| 0 <= k < right.len() implies (#[trigger] right@[k]).0 < graph.right_nodes.len() by {
            assert(listed(right@[k].0, right@[k].1@, biclique.right@));
            let i = choose|i: int| 0 <= i < biclique.right@.len() && biclique.right@[i].0 == right@[k].0 && biclique.right@[i].1@ == right@[k].1@;
            assert(biclique.right@[i].0 < graph.right_nodes@.len());
        }
    }
    let ghost lv = side_view(left@);
    let ghost rv = side_view(right@);
    let mut terms: Vec<usize> = Vec::new();
    let mut i: usize = 0;
    while i < left.len()
        invariant
            i <= left.len(),
            lv == side_view(left@),
            rv == side_view(right@),
            ascending(terms@),
            forall|x: usize| terms@.contains(x) <==> covers(*graph, lv.take(i as int), rv, x),
        decreases left.len() - i,
    {
        let mut j: usize = 0;
        while j < right.len()
            invariant
                j <= right.len(),
                i < left.len(),
                lv == side_view(left@),
                rv == side_view(right@),
                ascending(terms@),
                forall|x: usize| terms@.contains(x) <==> covers(*graph, lv.take(i as int), rv, x) || covers(
                    *graph,
                    seq![lv[i as int]],
                    rv.take(j as int),
                    x,
                ),
            decreases right.len() - j,
        {
            let ghost before = terms@;
            match find_edge(graph, left[i].0, right[j].0) {
                Some(e) => {
                    extend_sorted(&mut terms, &graph.edges[e].1.terms);
                    proof {
                        assert forall|x: usize| terms@.contains(x) <==> covers(*graph, lv.take(i as int), rv, x) || covers(
                            *graph,
                            seq![lv[i as int]],
                            rv.take(j + 1),
                            x,
                        ) by {
                            lemma_covers_extend(*graph, lv[i as int], rv, j as int, x);
                            if graph.edges@[e as int].1.terms@.contains(x) {
                                assert(seq![lv[i as int]][0] == lv[i as int]);
                                assert(rv.take(j + 1)[j as int] == rv[j as int]);
                                assert(covers(*graph, seq![lv[i as int]], rv.take(j + 1), x));
                            }
                        }
                    }
                },
                None => {
                    proof {
                        assert forall|x: usize| terms@.contains(x) <==> covers(*graph, lv.take(i as int), rv, x) || covers(
                            *graph,
                            seq![lv[i as int]],
                            rv.take(j + 1),
                            x,
                        ) by {
                            lemma_covers_extend(*graph, lv[i as int], rv, j as int, x);
                        }
                    }
                },
            }
            j = j + 1;
        }
        proof {
            assert(rv.take(right.len() as int) =~= rv);
            assert forall|x: usize| terms@.contains(x) <==> covers(*graph, lv.take(i + 1), rv, x) by {
                lemma_covers_split(*graph, lv, rv, i as int, x);
            }
        }
        i = i + 1;
    }
    assert(lv.take(left.len() as int) =~= lv);
    let children = (
        side_definition(base, &graph.left_exts, &graph.left_nodes, &left),
        side_definition(base, &graph.right_exts, &graph.right_nodes, &right),
    );
    let contracted = graph.contracted.clone();
    let r = BicliqueAction { target, terms, children, contracted };
    proof {
        assert(r@.contracted =~= graph.contracted@);
        assert(r@.children.0 =~= child_definition(base, graph.left_exts@, graph.left_nodes@, lv));
        assert(r@.children.1 =~= child_definition(base, graph.right_exts@, graph.right_nodes@, rv));
    }
    r
}

/// Covering through one more right node: the terms covered so far, or those
/// of the edge from `node` to that right node.
proof fn lemma_covers_extend(g: Graph, node: (usize, CoeffView), rv: Seq<(usize, CoeffView)>, j: int, x: usize)
    requires
        0 <= j < rv.len(),
        forall|a: int, b: int|
            0 <= a < b < g.edges@.len() ==> key_lt((#[trigger] g.edges@[a]).0, (#[trigger] g.edges@[b]).0),
    ensures
        covers(g, seq![node], rv.take(j + 1), x) <==> covers(g, seq![node], rv.take(j), x) || exists|e: int|
            0 <= e < g.edges@.len() && g.edges@[e].0 == (node.0, rv[j].0) && (#[trigger] g.edges@[e].1.terms@).contains(x),
{
    let one = seq![node];
    if covers(g, one, rv.take(j + 1), x) {
        let (a, b, e) = choose|a: int, b: int, e: int|
            #![trigger one[a], rv.take(j + 1)[b], g.edges@[e]]
            0 <= a < one.len() && 0 <= b < rv.take(j + 1).len() && 0 <= e < g.edges@.len() && g.edges@[e].0 == (
                one[a].0,
                rv.take(j + 1)[b].0,
            ) && g.edges@[e].1.terms@.contains(x);
        if b < j {
            assert(rv.take(j)[b] == rv.take(j + 1)[b]);
        }
    }
    if covers(g, one, rv.take(j), x) {
        let (a, b, e) = choose|a: int, b: int, e: int|
            #![trigger one[a], rv.take(j)[b], g.edges@[e]]
            0 <= a < one.len() && 0 <= b < rv.take(j).len() && 0 <= e < g.edges@.len() && g.edges@[e].0 == (
                one[a].0,
                rv.take(j)[b].0,
            ) && g.edges@[e].1.terms@.contains(x);
        assert(rv.take(j + 1)[b] == rv.take(j)[b]);
    }
    if exists|e: int|
        0 <= e < g.edges@.len() && g.edges@[e].0 == (node.0, rv[j].0) && (#[trigger] g.edges@[e].1.terms@).contains(x) {
        let e = choose|e: int|
            0 <= e < g.edges@.len() && g.edges@[e].0 == (node.0, rv[j].0) && (#[trigger] g.edges@[e].1.terms@).contains(x);
        assert(one[0] == node);
        assert(rv.take(j + 1)[j] == rv[j]);
    }
}

/// Covering through the left nodes up to `i`, then node `i`.
proof fn lemma_covers_split(g: Graph, lv: Seq<(usize, CoeffView)>, rv: Seq<(usize, CoeffView)>, i: int, x: usize)
    requires
        0 <= i < lv.len(),
    ensures
        covers(g, lv.take(i + 1), rv, x) <==> covers(g, lv.take(i), rv, x) || covers(g, seq![lv[i]], rv, x),
{
    let one = seq![lv[i]];
    if covers(g, lv.take(i + 1), rv, x) {
        let (a, b, e) = choose|a: int, b: int, e: int|
            #![trigger lv.take(i + 1)[a], rv[b], g.edges@[e]]
            0 <= a < lv.take(i + 1).len() && 0 <= b < rv.len() && 0 <= e < g.edges@.len() && g.edges@[e].0 == (
                lv.take(i + 1)[a].0,
                rv[b].0,
            ) && g.edges@[e].1.terms@.contains(x);
        if a < i {
            assert(lv.take(i)[a] == lv.take(i + 1)[a]);
        } else {
            assert(one[0] == lv.take(i + 1)[a]);
        }
    }
    if covers(g, lv.take(i), rv, x) {
        let (a, b, e) = choose|a: int, b: int, e: int|
            #![trigger lv.take(i)[a], rv[b], g.edges@[e]]
            0 <= a < lv.take(i).len() && 0 <= b < rv.len() && 0 <= e < g.edges@.len() && g.edges@[e].0 == (
                lv.take(i)[a].0,
                rv[b].0,
            ) && g.edges@[e].1.terms@.contains(x);
        assert(lv.take(i + 1)[a] == lv.take(i)[a]);
    }
    if covers(g, one, rv, x) {
        let (a, b, e) = choose|a: int, b: int, e: int|
            #![trigger one[a], rv[b], g.edges@[e]]
            0 <= a < one.len() && 0 <= b < rv.len() && 0 <= e < g.edges@.len() && g.edges@[e].0 == (
                one[a].0,
                rv[b].0,
            ) && g.edges@[e].1.terms@.contains(x);
        assert(lv.take(i + 1)[i] == one[0]);
    }
}

/// Exact equality of two definitions.
fn same_definition(a: &TensorDef, b: &TensorDef) -> (r: bool)
    ensures
        r == (a@ == b@),
{
    assert(a@.rhs.len() == a.rhs.len() && b@.rhs.len() == b.rhs.len());
    if a.base != b.base || a.rhs.len() != b.rhs.len() {
        return false;
    }
    if compare_indices(&a.exts, &b.exts) != 0 {
        return false;
    }
    let mut k: usize = 0;
    while k < a.rhs.len()
        invariant
            k <= a.rhs.len() == b.rhs.len(),
            a@.exts == b@.exts,
            a@.base == b@.base,
            forall|j: int| 0 <= j < k ==> a@.rhs[j] == b@.rhs[j],
        decreases a.rhs.len() - k,
    {
        assert(a@.rhs[k as int] == a.rhs@[k as int]@);
        assert(b@.rhs[k as int] == b.rhs@[k as int]@);
        if !same_term(&a.rhs[k], &b.rhs[k]) {
            return false;
        }
        k = k + 1;
    }
    assert(a@.rhs =~= b@.rhs);
    true
}

/// Both children of an action start with a nonzero term.
pub closed spec fn action_scalable(a: BicliqueAction) -> bool {
    &&& a.children.0@.rhs.len() > 0
    &&& !is_zero_value(a.children.0@.rhs[0].coeff)
    &&& a.children.1@.rhs.len() > 0
    &&& !is_zero_value(a.children.1@.rhs[0].coeff)
}

/// Scale a pair of children so that the first child's first coefficient is
/// one.
fn normalize_children(left: &TensorDef, right: &TensorDef) -> (r: (TensorDef, TensorDef))
    requires
        left@.rhs.len() > 0,
        !is_zero_value(left@.rhs[0].coeff),
    ensures
        r.0@ == divided_by(left@, left@.rhs[0].coeff),
        r.1@ == multiplied_by(right@, left@.rhs[0].coeff),
{
    assert(left@.rhs[0] == left.rhs@[0]@);
    let scale = left.rhs[0].coeff.clone();
    let mut left_copy = left.clone();
    let mut right_copy = right.clone();
    let mut k: usize = 0;
    let mut rhs: Vec<Term> = Vec::new();
    while k < left.rhs.len()
        invariant
            k <= left.rhs.len(),
            !is_zero_value(scale@),
            scale@ == left@.rhs[0].coeff,
            rhs.len() == k,
            forall|i: int| 0 <= i < k ==> (#[trigger] rhs@[i])@ == divided_by(left@, scale@).rhs[i],
        decreases left.rhs.len() - k,
    {
        assert(left@.rhs[k as int] == left.rhs@[k as int]@);
        let mut term = left.rhs[k].clone();
        term.coeff = term.coeff.div(&scale);
        rhs.push(term);
        k = k + 1;
    }
    left_copy.rhs = rhs;
    assert(left_copy@ =~= divided_by(left@, scale@));
    let mut rhs: Vec<Term> = Vec::new();
    let mut k: usize = 0;
    while k < right.rhs.len()
        invariant
            k <= right.rhs.len(),
            rhs.len() == k,
            forall|i: int| 0 <= i < k ==> (#[trigger] rhs@[i])@ == multiplied_by(right@, scale@).rhs[i],
        decreases right.rhs.len() - k,
    {
        assert(right@.rhs[k as int] == right.rhs@[k as int]@);
        let mut term = right.rhs[k].clone();
        term.coeff = term.coeff.mul(&scale);
        rhs.push(term);
        k = k + 1;
    }
    right_copy.rhs = rhs;
    assert(right_copy@ =~= multiplied_by(right@, scale@));
    (left_copy, right_copy)
}

/// `d` with every coefficient divided by `s`.
pub open spec fn divided_by(d: TensorDefView, s: CoeffView) -> TensorDefView {
    TensorDefView {
        rhs: d.rhs.map_values(
            |t: TermView| TermView { sums: t.sums, coeff: crate::coeff::ratio_quotient(t.coeff, s), factors: t.factors },
        ),
        ..d
    }
}

/// `d` with every coefficient multiplied by `s`.
pub open spec fn multiplied_by(d: TensorDefView, s: CoeffView) -> TensorDefView {
    TensorDefView {
        rhs: d.rhs.map_values(|t: TermView| TermView { sums: t.sums, coeff: ratio_product(t.coeff, s), factors: t.factors }),
        ..d
    }
}

/// The children scaled so that the first child's first coefficient is one.
pub open spec fn scaled_children(first: TensorDefView, second: TensorDefView) -> (TensorDefView, TensorDefView) {
    (divided_by(first, first.rhs[0].coeff), multiplied_by(second, first.rhs[0].coeff))
}

/// Two actions rewrite the same terms of the same definition over the same
/// contracted indices into children that agree once scaled, in either order.
pub open spec fn same_rewrite_view(a: BicliqueActionView, b: BicliqueActionView) -> bool {
    &&& a.target == b.target
    &&& a.terms == b.terms
    &&& a.contracted == b.contracted
    &&& {
        ||| scaled_children(a.children.0, a.children.1) == scaled_children(b.children.0, b.children.1)
        ||| scaled_children(a.children.0, a.children.1) == scaled_children(b.children.1, b.children.0)
    }
}

/// Two actions rewrite the same terms into the same children up to the
/// order of the children and a coefficient moved between them.
fn same_rewrite(left: &BicliqueAction, right: &BicliqueAction) -> (r: bool)
    requires
        action_scalable(*left),
        action_scalable(*right),
    ensures
        r == same_rewrite_view(left@, right@),
{
    if left.target.0 != right.target.0 || crate::order::compare_usizes(&left.terms, &right.terms) != 0
        || compare_indices(&left.contracted, &right.contracted) != 0 {
        return false;
    }
    let (a0, a1) = normalize_children(&left.children.0, &left.children.1);
    let (b0, b1) = normalize_children(&right.children.0, &right.children.1);
    if same_definition(&a0, &b0) && same_definition(&a1, &b1) {
        return true;
    }
    let (c0, c1) = normalize_children(&right.children.1, &right.children.0);
    same_definition(&a0, &c0) && same_definition(&a1, &c1)
}

// ----------------------------------------------------------------------------
// Spaces
// ----------------------------------------------------------------------------

/// The abstract form of a biclique space: its target, base, owner graphs,
/// the numbers of left and right nodes of each candidate, and each
/// candidate with its graph.
pub struct BicliqueSpaceView {
    pub target: DefinitionPosition,
    pub base: TensorId,
    pub graphs: Seq<Graph>,
    pub shapes: Seq<(nat, nat)>,
    pub candidates: Seq<(Graph, Biclique)>,
}

/// The policy interface for one biclique factorization query.
#[derive(Debug, PartialEq, Eq)]
pub struct BicliqueSpace {
    target: DefinitionPosition,
    base: TensorId,
    graphs: Vec<Graph>,
    candidates: Vec<(usize, Biclique)>,
}

impl View for BicliqueSpace {
    type V = BicliqueSpaceView;

    closed spec fn view(&self) -> BicliqueSpaceView {
        BicliqueSpaceView {
            target: self.target,
            base: self.base,
            graphs: self.graphs@,
            shapes: self.candidates@.map_values(|c: (usize, Biclique)| (c.1.left@.len(), c.1.right@.len())),
            candidates: self.candidates@.map_values(|c: (usize, Biclique)| (self.graphs@[c.0 as int], c.1)),
        }
    }
}

/// The space's graphs are valid and each candidate is a valid biclique of
/// its graph.
pub closed spec fn space_valid(s: BicliqueSpace) -> bool {
    &&& forall|g: int| 0 <= g < s.graphs@.len() ==> graph_valid(#[trigger] s.graphs@[g]) && edges_nonzero(s.graphs@[g])
    &&& forall|c: int| 0 <= c < s.candidates@.len() ==> (#[trigger] s.candidates@[c]).0 < s.graphs@.len()
        && biclique_valid(s.graphs@[s.candidates@[c].0 as int], s.candidates@[c].1)
}

/// Whether a mask sets no entry.
fn all_unset(mask: &[bool]) -> (r: bool)
    ensures
        r == forall|k: int| 0 <= k < mask.len() ==> !mask@[k],
{
    let mut k: usize = 0;
    while k < mask.len()
        invariant
            k <= mask.len(),
            forall|j: int| 0 <= j < k ==> !mask@[j],
        decreases mask.len() - k,
    {
        if mask[k] {
            return false;
        }
        k = k + 1;
    }
    true
}

impl BicliqueSpace {
    #[verifier::type_invariant]
    spec fn candidates_valid(self) -> bool {
        space_valid(self)
    }

    pub fn target(&self) -> (r: DefinitionPosition)
        ensures
            r == self@.target,
    {
        self.target
    }

    pub fn candidate_count(&self) -> (r: usize)
        ensures
            r == self@.shapes.len(),
    {
        self.candidates.len()
    }

    /// The numbers of left and right nodes of one candidate.
    pub fn shape(&self, candidate: usize) -> (r: Option<(usize, usize)>)
        ensures
            candidate >= self@.shapes.len() ==> r is None,
            candidate < self@.shapes.len() ==> (r matches Some(v) && v.0 == self@.shapes[candidate as int].0
                && v.1 == self@.shapes[candidate as int].1),
    {
        if candidate >= self.candidates.len() {
            return None;
        }
        let biclique = &self.candidates[candidate].1;
        Some((biclique.left.len(), biclique.right.len()))
    }

    /// Select nonempty subsets of the left and right nodes of one candidate.
    pub fn select(&self, candidate: usize, left: &[bool], right: &[bool]) -> (r: Result<
        Action,
        BicliqueChoiceError,
    >)
        ensures
            candidate >= self@.shapes.len() ==> r == Err::<Action, BicliqueChoiceError>(
                BicliqueChoiceError::CandidateOutOfBounds {
                    index: candidate,
                    len: self@.shapes.len() as usize,
                },
            ),
            candidate < self@.shapes.len() ==> {
                let shape = self@.shapes[candidate as int];
                &&& left.len() != shape.0 ==> r == Err::<Action, BicliqueChoiceError>(
                    BicliqueChoiceError::WrongLeftMaskLength { expected: shape.0 as usize, got: left.len() },
                )
                &&& left.len() == shape.0 && right.len() != shape.1 ==> r == Err::<Action, BicliqueChoiceError>(
                    BicliqueChoiceError::WrongRightMaskLength { expected: shape.1 as usize, got: right.len() },
                )
                &&& left.len() == shape.0 && right.len() == shape.1 && ((forall|k: int| 0 <= k < left.len() ==> !left@[k])
                    || (forall|k: int| 0 <= k < right.len() ==> !right@[k])) ==> r == Err::<Action, BicliqueChoiceError>(
                    BicliqueChoiceError::EmptySide,
                )
                &&& left.len() == shape.0 && right.len() == shape.1 && (exists|k: int| 0 <= k < left.len() && left@[k])
                    && (exists|k: int| 0 <= k < right.len() && right@[k]) ==> (r matches Ok(Action::Biclique(a))
                    && biclique_action(
                    self@.target,
                    self@.base,
                    self@.candidates[candidate as int].0,
                    self@.candidates[candidate as int].1,
                    left@,
                    right@,
                    a@,
                ))
            },
    {
        proof {
            use_type_invariant(self);
        }
        if candidate >= self.candidates.len() {
            return Err(BicliqueChoiceError::CandidateOutOfBounds { index: candidate, len: self.candidates.len() });
        }
        let (graph_index, biclique) = (&self.candidates[candidate].0, &self.candidates[candidate].1);
        if left.len() != biclique.left.len() {
            return Err(BicliqueChoiceError::WrongLeftMaskLength { expected: biclique.left.len(), got: left.len() });
        }
        if right.len() != biclique.right.len() {
            return Err(BicliqueChoiceError::WrongRightMaskLength { expected: biclique.right.len(), got: right.len() });
        }
        if all_unset(left) || all_unset(right) {
            return Err(BicliqueChoiceError::EmptySide);
        }
        let graph = &self.graphs[*graph_index];
        Ok(Action::Biclique(make_action(self.target, self.base, graph, biclique, left, right)))
    }
}

/// A mask with every entry set.
fn full_mask(len: usize) -> (r: Vec<bool>)
    ensures
        r.len() == len,
        forall|k: int| 0 <= k < len ==> r@[k],
{
    let mut r: Vec<bool> = Vec::new();
    while r.len() < len
        invariant
            r.len() <= len,
            forall|k: int| 0 <= k < r.len() ==> r@[k],
        decreases len - r.len(),
    {
        r.push(true);
    }
    r
}

/// Every term of a definition has at most as many factors as `usize` has
/// bits, so that its splits can be counted.
pub open spec fn splits_countable(d: TensorDefView) -> bool {
    forall|t: int| 0 <= t < d.rhs.len() ==> (#[trigger] d.rhs[t]).factors.len() <= usize::BITS
}

/// What a biclique query answers: `DefinitionOutOfBounds` exactly when the
/// target definition does not exist, otherwise a space for the target's base
/// whose candidates are found bicliques, no two of which stand for the same
/// whole rewrite, and which offers every edge of its owner graphs that
/// another node would join; or a canonicalization error.
pub open spec fn biclique_answer(
    s: StateView,
    target: DefinitionPosition,
    r: Result<BicliqueSpaceView, QueryError>,
) -> bool {
    if target.0 >= s.computation.definitions.len() {
        r == Err::<BicliqueSpaceView, QueryError>(QueryError::DefinitionOutOfBounds { position: target })
    } else {
        let d = s.computation.definitions[target.0 as int];
        match r {
            Ok(space) => {
                &&& space.target == target
                &&& space.base == d.base
                &&& forall|k: int|
                    0 <= k < space.candidates.len() ==> found_biclique((#[trigger] space.candidates[k]).0, space.candidates[k].1)
                &&& forall|a: int, b: int, ra: BicliqueActionView, rb: BicliqueActionView|
                    #![trigger whole_rewrite(target, d.base, space.candidates[a].0, space.candidates[a].1, ra), whole_rewrite(target, d.base, space.candidates[b].0, space.candidates[b].1, rb)]
                    0 <= a < b < space.candidates.len() && whole_rewrite(
                        target,
                        d.base,
                        space.candidates[a].0,
                        space.candidates[a].1,
                        ra,
                    ) && whole_rewrite(target, d.base, space.candidates[b].0, space.candidates[b].1, rb)
                        ==> !same_rewrite_view(ra, rb)
                &&& edges_offered(target, d.base, space.graphs, space.candidates)
            },
            Err(e) => e matches QueryError::Canonicalization(ce) && exists|t: int, c: nat|
                0 <= t < d.rhs.len() && #[trigger] split_fails(
                    s.computation,
                    d.exts,
                    bipartition_of(d.exts, d.rhs[t], split_mask(d.rhs[t].factors.len(), c)),
                    ce,
                ),
        }
    }
}

/// Some candidate's whole rewrite is the same rewrite as the whole rewrite
/// of biclique `b` of graph `g`.
pub open spec fn candidate_rewrite(
    target: DefinitionPosition,
    base: TensorId,
    g: Graph,
    b: Biclique,
    candidates: Seq<(Graph, Biclique)>,
) -> bool {
    exists|k: int, ra: BicliqueActionView, rb: BicliqueActionView|
        #![trigger whole_rewrite(target, base, g, b, ra), whole_rewrite(target, base, candidates[k].0, candidates[k].1, rb)]
        0 <= k < candidates.len() && whole_rewrite(target, base, g, b, ra) && whole_rewrite(
            target,
            base,
            candidates[k].0,
            candidates[k].1,
            rb,
        ) && same_rewrite_view(rb, ra)
}

/// Every edge of every graph that some other node would join lies in a
/// found biclique of that graph whose whole rewrite some candidate makes.
pub open spec fn edges_offered(
    target: DefinitionPosition,
    base: TensorId,
    graphs: Seq<Graph>,
    candidates: Seq<(Graph, Biclique)>,
) -> bool {
    forall|g: int, e: int|
        0 <= g < graphs.len() && 0 <= e < graphs[g].edges@.len() && !maximal_biclique(
            graphs[g],
            #[trigger] edge_biclique(graphs[g], e),
        ) ==> exists|b: Biclique|
            #[trigger] found_biclique(graphs[g], b) && side_has(b.left@, graphs[g].edges@[e].0.0) && side_has(
                b.right@,
                graphs[g].edges@[e].0.1,
            ) && candidate_rewrite(target, base, graphs[g], b, candidates)
}

/// Some listed rewrite is the same rewrite as the whole rewrite of biclique
/// `b` of graph `g`.
spec fn rewrite_listed(target: DefinitionPosition, base: TensorId, g: Graph, b: Biclique, rewrites: Seq<BicliqueAction>) -> bool {
    exists|x: int, ra: BicliqueActionView|
        #![trigger rewrites[x], whole_rewrite(target, base, g, b, ra)]
        0 <= x < rewrites.len() && whole_rewrite(target, base, g, b, ra) && same_rewrite_view(rewrites[x]@, ra)
}

/// The edges of graph `g` that some other node would join lie in found
/// bicliques whose rewrites are listed.
spec fn graph_offered(target: DefinitionPosition, base: TensorId, g: Graph, rewrites: Seq<BicliqueAction>) -> bool {
    forall|e: int|
        0 <= e < g.edges@.len() && !maximal_biclique(g, #[trigger] edge_biclique(g, e)) ==> exists|b: Biclique|
            #[trigger] found_biclique(g, b) && side_has(b.left@, g.edges@[e].0.0) && side_has(b.right@, g.edges@[e].0.1)
                && rewrite_listed(target, base, g, b, rewrites)
}

/// Listing one more rewrite keeps every graph offered.
proof fn lemma_graph_offered_push(target: DefinitionPosition, base: TensorId, g: Graph, rewrites: Seq<BicliqueAction>, extra: BicliqueAction)
    requires
        graph_offered(target, base, g, rewrites),
    ensures
        graph_offered(target, base, g, rewrites.push(extra)),
{
    assert forall|e: int|
        0 <= e < g.edges@.len() && !maximal_biclique(g, #[trigger] edge_biclique(g, e)) implies exists|b: Biclique|
            #[trigger] found_biclique(g, b) && side_has(b.left@, g.edges@[e].0.0) && side_has(b.right@, g.edges@[e].0.1)
                && rewrite_listed(target, base, g, b, rewrites.push(extra)) by {
        let b = choose|b: Biclique|
            #[trigger] found_biclique(g, b) && side_has(b.left@, g.edges@[e].0.0) && side_has(b.right@, g.edges@[e].0.1)
                && rewrite_listed(target, base, g, b, rewrites);
        let (x, ra) = choose|x: int, ra: BicliqueActionView|
            #![trigger rewrites[x], whole_rewrite(target, base, g, b, ra)]
            0 <= x < rewrites.len() && whole_rewrite(target, base, g, b, ra) && same_rewrite_view(rewrites[x]@, ra);
        assert(rewrites.push(extra)[x] == rewrites[x]);
        assert(rewrite_listed(target, base, g, b, rewrites.push(extra)));
        assert(found_biclique(g, b));
    }
}

/// Listing one more rewrite keeps a biclique's rewrite listed.
proof fn lemma_rewrite_listed_push(target: DefinitionPosition, base: TensorId, g: Graph, b: Biclique, rewrites: Seq<BicliqueAction>, extra: BicliqueAction)
    requires
        rewrite_listed(target, base, g, b, rewrites),
    ensures
        rewrite_listed(target, base, g, b, rewrites.push(extra)),
{
    let (x, ra) = choose|x: int, ra: BicliqueActionView|
        #![trigger rewrites[x], whole_rewrite(target, base, g, b, ra)]
        0 <= x < rewrites.len() && whole_rewrite(target, base, g, b, ra) && same_rewrite_view(rewrites[x]@, ra);
    assert(rewrites.push(extra)[x] == rewrites[x]);
}

/// `a` is the rewrite that takes every node of biclique `b` of graph `g`.
pub open spec fn whole_rewrite(target: DefinitionPosition, base: TensorId, g: Graph, b: Biclique, a: BicliqueActionView) -> bool {
    biclique_action(
        target,
        base,
        g,
        b,
        Seq::new(b.left@.len(), |k: int| true),
        Seq::new(b.right@.len(), |k: int| true),
        a,
    )
}

/// The masks of a biclique determine its action.
proof fn lemma_biclique_action_unique(
    target: DefinitionPosition,
    base: TensorId,
    g: Graph,
    b: Biclique,
    left_mask: Seq<bool>,
    right_mask: Seq<bool>,
    x: BicliqueActionView,
    y: BicliqueActionView,
)
    requires
        biclique_action(target, base, g, b, left_mask, right_mask, x),
        biclique_action(target, base, g, b, left_mask, right_mask, y),
    ensures
        x == y,
{
    crate::permutation::lemma_ascending_unique(x.terms, y.terms);
}

/// The biclique space of one definition of a state: the maximal bicliques of
/// its owner graphs, without repeating a rewrite.
#[verifier::loop_isolation(false)]
pub fn query(state: &State, target: DefinitionPosition) -> (r: Result<BicliqueSpace, QueryError>)
    requires
        target.0 < state@.computation.definitions.len() ==> splits_countable(
            state@.computation.definitions[target.0 as int],
        ),
    ensures
        biclique_answer(
            state@,
            target,
            match r {
                Ok(space) => Ok(space@),
                Err(e) => Err(e),
            },
        ),
{
    let computation = state.computation();
    if target.0 >= computation.definitions.len() {
        return Err(QueryError::DefinitionOutOfBounds { position: target });
    }
    let definition = &computation.definitions[target.0];
    assert(state@.computation.definitions[target.0 as int] == definition@);
    proof {
        assert(crate::valid::definition_valid(state@.computation, definition@));
        assert forall|t: int| 0 <= t < definition.rhs.len() implies (#[trigger] definition.rhs@[t]).factors.len() <= usize::BITS by {
            assert(definition@.rhs[t] == definition.rhs@[t]@);
        }
        assert forall|t: int, k: int| 0 <= t < definition.rhs.len() && 0 <= k < definition.rhs@[t]@.sums.len()
            implies term_uses(definition.rhs@[t]@, (#[trigger] definition.rhs@[t]@.sums[k]).id) by {
            assert(definition@.rhs[t] == definition.rhs@[t]@);
            assert(crate::valid::term_valid(state@.computation, definition@.exts, definition@.rhs[t]));
        }
    }
    let graphs = match build_graphs(computation, definition) {
        Ok(graphs) => graphs,
        Err(e) => {
            return Err(QueryError::Canonicalization(e));
        },
    };
    let mut candidates: Vec<(usize, Biclique)> = Vec::new();
    let mut rewrites: Vec<BicliqueAction> = Vec::new();
    let mut g: usize = 0;
    while g < graphs.len()
        invariant
            g <= graphs.len(),
            forall|x: int| 0 <= x < graphs.len() ==> graph_valid(#[trigger] graphs@[x]) && edges_nonzero(graphs@[x]),
            forall|c: int| 0 <= c < candidates.len() ==> (#[trigger] candidates@[c]).0 < graphs.len()
                && biclique_valid(graphs@[candidates@[c].0 as int], candidates@[c].1)
                && found_biclique(graphs@[candidates@[c].0 as int], candidates@[c].1),
            forall|x: int| 0 <= x < rewrites.len() ==> action_scalable(#[trigger] rewrites@[x]),
            rewrites.len() == candidates.len(),
            forall|x: int| 0 <= x < rewrites.len() ==> whole_rewrite(
                target,
                definition.base,
                graphs@[candidates@[x].0 as int],
                candidates@[x].1,
                (#[trigger] rewrites@[x])@,
            ),
            forall|a: int, b: int| 0 <= a < b < rewrites.len() ==> !same_rewrite_view(
                (#[trigger] rewrites@[a])@,
                (#[trigger] rewrites@[b])@,
            ),
            forall|g2: int| 0 <= g2 < g ==> graph_offered(target, definition.base, #[trigger] graphs@[g2], rewrites@),
        decreases graphs.len() - g,
    {
        let graph = &graphs[g];
        let mut bicliques = enumerate_bicliques(graph);
        let ghost bs0 = bicliques@;
        while bicliques.len() > 0
            invariant
                bicliques.len() <= bs0.len(),
                forall|k: int| 0 <= k < bicliques.len() ==> #[trigger] bicliques@[k] == bs0[k + (bs0.len() - bicliques.len())],
                forall|k: int| 0 <= k < bs0.len() - bicliques.len() ==> rewrite_listed(target, definition.base, *graph, #[trigger] bs0[k], rewrites@),
                forall|g2: int| 0 <= g2 < g ==> graph_offered(target, definition.base, #[trigger] graphs@[g2], rewrites@),
                g < graphs.len(),
                graph == &graphs[g as int],
                forall|x: int| 0 <= x < graphs.len() ==> graph_valid(#[trigger] graphs@[x]) && edges_nonzero(graphs@[x]),
                forall|k: int| 0 <= k < bicliques.len() ==> biclique_valid(*graph, #[trigger] bicliques@[k]),
                forall|k: int| 0 <= k < bicliques.len() ==> found_biclique(*graph, #[trigger] bicliques@[k]),
                forall|c: int| 0 <= c < candidates.len() ==> (#[trigger] candidates@[c]).0 < graphs.len()
                    && biclique_valid(graphs@[candidates@[c].0 as int], candidates@[c].1)
                && found_biclique(graphs@[candidates@[c].0 as int], candidates@[c].1),
                forall|x: int| 0 <= x < rewrites.len() ==> action_scalable(#[trigger] rewrites@[x]),
                rewrites.len() == candidates.len(),
                forall|x: int| 0 <= x < rewrites.len() ==> whole_rewrite(
                    target,
                    definition.base,
                    graphs@[candidates@[x].0 as int],
                    candidates@[x].1,
                    (#[trigger] rewrites@[x])@,
                ),
                forall|a: int, b: int| 0 <= a < b < rewrites.len() ==> !same_rewrite_view(
                    (#[trigger] rewrites@[a])@,
                    (#[trigger] rewrites@[b])@,
                ),
            decreases bicliques.len(),
        {
            let ghost before_b = bicliques@;
            let biclique = bicliques.remove(0);
            assert(found_biclique(*graph, before_b[0]));
            assert(before_b[0] == bs0[bs0.len() - before_b.len()]);
            assert forall|k: int| 0 <= k < bicliques.len() implies #[trigger] bicliques@[k] == bs0[k + (bs0.len() - bicliques.len())] by {
                assert(bicliques@[k] == before_b[k + 1]);
            }
            proof {
                assert forall|k: int| 0 <= k < bicliques.len() implies found_biclique(*graph, #[trigger] bicliques@[k]) by {
                    assert(bicliques@[k] == before_b[k + 1]);
                }
            }
            let left_mask = full_mask(biclique.left.len());
            let right_mask = full_mask(biclique.right.len());
            let rewrite = make_action(target, definition.base, graph, &biclique, left_mask.as_slice(), right_mask.as_slice());
            assert(left_mask@ =~= Seq::new(biclique.left@.len(), |k: int| true));
            assert(right_mask@ =~= Seq::new(biclique.right@.len(), |k: int| true));
            assert(whole_rewrite(target, definition.base, *graph, biclique, rewrite@));
            let mut repeated = false;
            let mut k: usize = 0;
            while k < rewrites.len()
                invariant
                    k <= rewrites.len(),
                    forall|x: int| 0 <= x < rewrites.len() ==> action_scalable(#[trigger] rewrites@[x]),
                    action_scalable(rewrite),
                    repeated <==> exists|k2: int| 0 <= k2 < k && same_rewrite_view((#[trigger] rewrites@[k2])@, rewrite@),
                decreases rewrites.len() - k,
            {
                if same_rewrite(&rewrites[k], &rewrite) {
                    repeated = true;
                }
                k = k + 1;
            }
            if !repeated {
                let ghost (rw0, cd0) = (rewrites@, candidates@);
                let ghost rv = rewrite@;
                let ghost bv = biclique;
                rewrites.push(rewrite);
                candidates.push((g, biclique));
                proof {
                    assert forall|g2: int| 0 <= g2 < g implies graph_offered(target, definition.base, #[trigger] graphs@[g2], rewrites@) by {
                        lemma_graph_offered_push(target, definition.base, graphs@[g2], rw0, rewrites@[rw0.len() as int]);
                        assert(rewrites@ == rw0.push(rewrites@[rw0.len() as int]));
                    }
                    assert forall|k: int| 0 <= k < bs0.len() - bicliques.len() implies rewrite_listed(target, definition.base, *graph, #[trigger] bs0[k], rewrites@) by {
                        if k < bs0.len() - before_b.len() {
                            lemma_rewrite_listed_push(target, definition.base, *graph, bs0[k], rw0, rewrites@[rw0.len() as int]);
                            assert(rewrites@ == rw0.push(rewrites@[rw0.len() as int]));
                        } else {
                            assert(bs0[k] == bv);
                            assert(rewrites@[rw0.len() as int]@ == rv);
                            assert(whole_rewrite(target, definition.base, *graph, bv, rv));
                            assert(same_rewrite_view(rewrites@[rw0.len() as int]@, rv));
                        }
                    }
                    assert forall|x: int| 0 <= x < rewrites.len() implies whole_rewrite(
                        target,
                        definition.base,
                        graphs@[candidates@[x].0 as int],
                        candidates@[x].1,
                        (#[trigger] rewrites@[x])@,
                    ) by {
                        if x < rw0.len() {
                            assert(rewrites@[x] == rw0[x] && candidates@[x] == cd0[x]);
                        }
                    }
                    assert forall|a: int, b: int| 0 <= a < b < rewrites.len() implies !same_rewrite_view(
                        (#[trigger] rewrites@[a])@,
                        (#[trigger] rewrites@[b])@,
                    ) by {
                        assert(rewrites@[a] == rw0[a]);
                        if b < rw0.len() {
                            assert(rewrites@[b] == rw0[b]);
                        }
                    }
                }
            } else {
                proof {
                    let k2 = choose|k2: int| 0 <= k2 < k && same_rewrite_view((#[trigger] rewrites@[k2])@, rewrite@);
                    assert(bs0[bs0.len() - before_b.len()] == biclique);
                    assert(rewrite_listed(target, definition.base, *graph, biclique, rewrites@)) by {
                        assert(rewrites@[k2] == rewrites@[k2]);
                    }
                }
            }
        }
        proof {
            assert(graph_offered(target, definition.base, graphs@[g as int], rewrites@)) by {
                assert forall|e: int|
                    0 <= e < graph.edges@.len() && !maximal_biclique(*graph, #[trigger] edge_biclique(*graph, e)) implies exists|b: Biclique|
                        #[trigger] found_biclique(*graph, b) && side_has(b.left@, graph.edges@[e].0.0) && side_has(b.right@, graph.edges@[e].0.1)
                            && rewrite_listed(target, definition.base, *graph, b, rewrites@) by {
                    assert(edge_recorded(*graph, e, bs0));
                    let k = choose|k: int| 0 <= k < bs0.len() && side_has((#[trigger] bs0[k]).left@, graph.edges@[e].0.0)
                        && side_has(bs0[k].right@, graph.edges@[e].0.1);
                    assert(rewrite_listed(target, definition.base, *graph, bs0[k], rewrites@));
                    assert(found_biclique(*graph, bs0[k]));
                }
            }
        }
        g = g + 1;
    }
    let space = BicliqueSpace { target, base: definition.base, graphs, candidates };
    proof {
        assert forall|gi: int, e: int|
            0 <= gi < space@.graphs.len() && 0 <= e < space@.graphs[gi].edges@.len() && !maximal_biclique(
                space@.graphs[gi],
                #[trigger] edge_biclique(space@.graphs[gi], e),
            ) implies exists|b: Biclique|
                #[trigger] found_biclique(space@.graphs[gi], b) && side_has(b.left@, space@.graphs[gi].edges@[e].0.0) && side_has(
                    b.right@,
                    space@.graphs[gi].edges@[e].0.1,
                ) && candidate_rewrite(target, definition.base, space@.graphs[gi], b, space@.candidates) by {
            let gr = space@.graphs[gi];
            assert(graph_offered(target, definition.base, gr, rewrites@));
            let b = choose|b: Biclique|
                #[trigger] found_biclique(gr, b) && side_has(b.left@, gr.edges@[e].0.0) && side_has(b.right@, gr.edges@[e].0.1)
                    && rewrite_listed(target, definition.base, gr, b, rewrites@);
            let (x, ra) = choose|x: int, ra: BicliqueActionView|
                #![trigger rewrites@[x], whole_rewrite(target, definition.base, gr, b, ra)]
                0 <= x < rewrites@.len() && whole_rewrite(target, definition.base, gr, b, ra) && same_rewrite_view(rewrites@[x]@, ra);
            assert(space@.candidates[x] == (space.graphs@[space.candidates@[x].0 as int], space.candidates@[x].1));
            assert(whole_rewrite(
                target,
                definition.base,
                space@.candidates[x].0,
                space@.candidates[x].1,
                rewrites@[x]@,
            ));
            assert(candidate_rewrite(target, definition.base, gr, b, space@.candidates));
            assert(found_biclique(gr, b));
        }
        assert forall|k: int| 0 <= k < space@.candidates.len() implies found_biclique(
            (#[trigger] space@.candidates[k]).0,
            space@.candidates[k].1,
        ) by {
            assert(space@.candidates[k] == (space.graphs@[space.candidates@[k].0 as int], space.candidates@[k].1));
        }
        assert forall|a: int, b: int, ra: BicliqueActionView, rb: BicliqueActionView|
            #![trigger whole_rewrite(target, definition.base, space@.candidates[a].0, space@.candidates[a].1, ra), whole_rewrite(target, definition.base, space@.candidates[b].0, space@.candidates[b].1, rb)]
            0 <= a < b < space@.candidates.len() && whole_rewrite(
                target,
                definition.base,
                space@.candidates[a].0,
                space@.candidates[a].1,
                ra,
            ) && whole_rewrite(target, definition.base, space@.candidates[b].0, space@.candidates[b].1, rb)
            implies !same_rewrite_view(ra, rb) by {
            let ca = space.candidates@[a];
            let cb = space.candidates@[b];
            assert(space@.candidates[a] == (space.graphs@[ca.0 as int], ca.1));
            assert(space@.candidates[b] == (space.graphs@[cb.0 as int], cb.1));
            lemma_biclique_action_unique(
                target,
                definition.base,
                space.graphs@[ca.0 as int],
                ca.1,
                Seq::new(ca.1.left@.len(), |k: int| true),
                Seq::new(ca.1.right@.len(), |k: int| true),
                ra,
                rewrites@[a]@,
            );
            lemma_biclique_action_unique(
                target,
                definition.base,
                space.graphs@[cb.0 as int],
                cb.1,
                Seq::new(cb.1.left@.len(), |k: int| true),
                Seq::new(cb.1.right@.len(), |k: int| true),
                rb,
                rewrites@[b]@,
            );
        }
    }
    Ok(space)
}

/// The contraction of the two children that replaces the covered terms.
pub open spec fn biclique_replacement(
    a: BicliqueActionView,
    left_coeff: CoeffView,
    left_ref: TensorRefView,
    right_coeff: CoeffView,
    right_ref: TensorRefView,
) -> TermView {
    TermView {
        sums: a.contracted,
        coeff: ratio_product(left_coeff, right_coeff),
        factors: seq![left_ref, right_ref],
    }
}

/// `after` is `before` with both children added as intermediates and the
/// covered terms replaced by their contraction.
pub open spec fn applies_biclique(before: StateView, a: BicliqueActionView, after: StateView) -> bool {
    exists|
        s1: StateView,
        left_coeff: CoeffView,
        left_ref: TensorRefView,
        s2: StateView,
        right_coeff: CoeffView,
        right_ref: TensorRefView,
    |
        #![trigger adds_intermediate(before, a.children.0, s1, left_coeff, left_ref), adds_intermediate(s1, a.children.1, s2, right_coeff, right_ref)]
        adds_intermediate(before, a.children.0, s1, left_coeff, left_ref) && adds_intermediate(
            s1,
            a.children.1,
            s2,
            right_coeff,
            right_ref,
        ) && replaces_terms(
            s2,
            a.target.0 as int,
            a.terms,
            seq![biclique_replacement(a, left_coeff, left_ref, right_coeff, right_ref)],
            after,
        )
}

/// Why applying a biclique factorization fails with `e`: adding the first
/// child fails, or adding the second after it, or replacing the covered terms
/// by their contraction after both.
pub open spec fn biclique_failure(before: StateView, a: BicliqueActionView, e: StateError) -> bool {
    ||| crate::state::intermediate::intermediate_failure(before, a.children.0, e)
    ||| exists|s1: StateView, left_coeff: CoeffView, left_ref: TensorRefView|
        #[trigger] adds_intermediate(before, a.children.0, s1, left_coeff, left_ref)
            && crate::state::intermediate::intermediate_failure(s1, a.children.1, e)
    ||| exists|
        s1: StateView,
        left_coeff: CoeffView,
        left_ref: TensorRefView,
        s2: StateView,
        right_coeff: CoeffView,
        right_ref: TensorRefView,
    |
        #![trigger adds_intermediate(before, a.children.0, s1, left_coeff, left_ref), adds_intermediate(s1, a.children.1, s2, right_coeff, right_ref)]
        adds_intermediate(before, a.children.0, s1, left_coeff, left_ref) && adds_intermediate(
            s1,
            a.children.1,
            s2,
            right_coeff,
            right_ref,
        ) && crate::state::replace_failure(
            s2,
            a.target.0 as int,
            a.terms,
            seq![biclique_replacement(a, left_coeff, left_ref, right_coeff, right_ref)],
            e,
        )
}

/// Apply a biclique factorization to a state.
pub fn apply(state: &mut State, action: BicliqueAction) -> (r: Result<(), StateError>)
    ensures
        r is Ok ==> applies_biclique(old(state)@, action@, final(state)@),
        r matches Err(e) ==> biclique_failure(old(state)@, action@, e),
        r is Ok ==> crate::state::state_valid(final(state)@.computation, final(state)@.protected_outputs),
        final(state)@.protected_outputs == old(state)@.protected_outputs,
{
    let ghost a = action@;
    let ghost s0 = state@;
    let BicliqueAction { target, terms, children, contracted } = action;
    let (left, right) = children;
    let (left_coeff, left_ref) = match state.add_intermediate(left) {
        Ok(v) => v,
        Err(e) => {
            return Err(e);
        },
    };
    let ghost s1 = state@;
    let (right_coeff, right_ref) = match state.add_intermediate(right) {
        Ok(v) => v,
        Err(e) => {
            assert(adds_intermediate(s0, a.children.0, s1, left_coeff@, left_ref@));
            return Err(e);
        },
    };
    let ghost s2 = state@;
    let ghost lr = left_ref@;
    let ghost rr = right_ref@;
    let mut factors: Vec<TensorRef> = Vec::new();
    factors.push(left_ref);
    factors.push(right_ref);
    let replacement = Term { sums: contracted, coeff: left_coeff.mul(&right_coeff), factors };
    assert(replacement@ =~= biclique_replacement(a, left_coeff@, lr, right_coeff@, rr));
    let mut replacements: Vec<Term> = Vec::new();
    replacements.push(replacement);
    proof {
        assert(terms_view(replacements@) =~= seq![biclique_replacement(a, left_coeff@, lr, right_coeff@, rr)]);
        assert(adds_intermediate(s0, a.children.0, s1, left_coeff@, lr));
        assert(adds_intermediate(s1, a.children.1, s2, right_coeff@, rr));
    }
    match state.replace_terms(target.0, terms.as_slice(), replacements) {
        Ok(()) => {},
        Err(e) => {
            return Err(e);
        },
    }
    Ok(())
}

} // verus!
