//! Lexicographic orders on index lists, permutations and coefficients, as
//! the derived orders of the corresponding standard types compare them.

use crate::coeff::{denom_value, numer_value, Coefficient};
use crate::repr::{Index, IndexId};
use vstd::prelude::*;

verus! {

/// `-1`, `0` or `1` as `x` is below, equal to or above `y`.
pub open spec fn int_order(x: int, y: int) -> int {
    if x < y {
        -1
    } else if x > y {
        1
    } else {
        0
    }
}

/// The lexicographic comparison of two integer sequences (`-1`, `0` or
/// `1`), a proper prefix coming first.
pub open spec fn lex_order(a: Seq<int>, b: Seq<int>) -> int
    decreases a.len(),
{
    if a.len() == 0 {
        if b.len() == 0 {
            0
        } else {
            -1
        }
    } else if b.len() == 0 {
        1
    } else if a[0] != b[0] {
        int_order(a[0], b[0])
    } else {
        lex_order(a.drop_first(), b.drop_first())
    }
}

/// One step of [`lex_order`] at position `k`.
pub proof fn lemma_lex_step(a: Seq<int>, b: Seq<int>, k: int)
    requires
        0 <= k <= a.len(),
        k <= b.len(),
    ensures
        k < a.len() && k < b.len() && a[k] != b[k] ==> lex_order(a.skip(k), b.skip(k)) == int_order(a[k], b[k]),
        k < a.len() && k < b.len() && a[k] == b[k] ==> lex_order(a.skip(k), b.skip(k)) == lex_order(a.skip(k + 1), b.skip(k + 1)),
        k == a.len() && k == b.len() ==> lex_order(a.skip(k), b.skip(k)) == 0,
        k == a.len() && k < b.len() ==> lex_order(a.skip(k), b.skip(k)) == -1,
        k < a.len() && k == b.len() ==> lex_order(a.skip(k), b.skip(k)) == 1,
        lex_order(a.skip(0), b.skip(0)) == lex_order(a, b),
{
    assert(a.skip(0) =~= a);
    assert(b.skip(0) =~= b);
    if k < a.len() && k < b.len() {
        assert(a.skip(k).drop_first() =~= a.skip(k + 1));
        assert(b.skip(k).drop_first() =~= b.skip(k + 1));
        assert(a.skip(k)[0] == a[k]);
        assert(b.skip(k)[0] == b[k]);
    }
}

/// [`lex_order`] is zero exactly on equal sequences.
pub proof fn lemma_lex_order_zero(a: Seq<int>, b: Seq<int>)
    ensures
        lex_order(a, b) == 0 <==> a == b,
        -1 <= lex_order(a, b) <= 1,
    decreases a.len(),
{
    if a.len() == 0 || b.len() == 0 {
        if a.len() != b.len() {
            assert(a != b);
        } else {
            assert(a =~= b);
        }
    } else if a[0] != b[0] {
        assert(a != b);
    } else {
        lemma_lex_order_zero(a.drop_first(), b.drop_first());
        assert(lex_order(a, b) == lex_order(a.drop_first(), b.drop_first()));
        if a.drop_first() == b.drop_first() {
            assert(a =~= b) by {
                assert forall|i: int| 0 <= i < a.len() implies a[i] == b[i] by {
                    if i > 0 {
                        assert(a[i] == a.drop_first()[i - 1]);
                        assert(b[i] == b.drop_first()[i - 1]);
                    }
                }
            }
        } else {
            assert(a != b) by {
                if a == b {
                    assert(a.drop_first() =~= b.drop_first());
                }
            }
        }
    }
}

/// Swapping the arguments of [`lex_order`] negates it.
pub proof fn lemma_lex_order_swap(a: Seq<int>, b: Seq<int>)
    ensures
        lex_order(a, b) == -lex_order(b, a),
    decreases a.len(),
{
    if a.len() > 0 && b.len() > 0 && a[0] == b[0] {
        lemma_lex_order_swap(a.drop_first(), b.drop_first());
    }
}

/// [`lex_order`] is transitive, strictly where either step is strict.
pub proof fn lemma_lex_order_trans(a: Seq<int>, b: Seq<int>, c: Seq<int>)
    requires
        lex_order(a, b) <= 0,
        lex_order(b, c) <= 0,
    ensures
        lex_order(a, c) <= 0,
        lex_order(a, b) < 0 || lex_order(b, c) < 0 ==> lex_order(a, c) < 0,
    decreases a.len(),
{
    lemma_lex_order_zero(a, b);
    lemma_lex_order_zero(b, c);
    if a.len() > 0 && b.len() > 0 && c.len() > 0 && a[0] == b[0] && b[0] == c[0] {
        lemma_lex_order_trans(a.drop_first(), b.drop_first(), c.drop_first());
    }
}

/// The entries of `s` as integers.
pub open spec fn usize_keys(s: Seq<usize>) -> Seq<int> {
    s.map_values(|x: usize| x as int)
}

/// The identities of `s` as integers.
pub open spec fn id_keys(s: Seq<IndexId>) -> Seq<int> {
    s.map_values(|x: IndexId| x.0 as int)
}

/// An index as one integer that orders by identity and then range.
pub open spec fn index_key(i: Index) -> int {
    i.id.0 * 0x1_0000_0000 + i.range.0
}

/// The indices of `s` as integers that order by identity and then range.
pub open spec fn index_keys(s: Seq<Index>) -> Seq<int> {
    s.map_values(|x: Index| index_key(x))
}

/// Indices with the same keys are equal.
pub proof fn lemma_index_keys_injective(a: Seq<Index>, b: Seq<Index>)
    requires
        index_keys(a) == index_keys(b),
    ensures
        a == b,
{
    assert(a.len() == index_keys(a).len());
    assert(b.len() == index_keys(b).len());
    assert forall|i: int| 0 <= i < a.len() implies a[i] == b[i] by {
        assert(index_keys(a)[i] == index_keys(b)[i]);
        assert(index_keys(a)[i] == index_key(a[i]));
        assert(index_keys(b)[i] == index_key(b[i]));
        let (x, y) = (a[i], b[i]);
        assert(index_key(x) == index_key(y));
        let (xi, xr, yi, yr) = (x.id.0 as int, x.range.0 as int, y.id.0 as int, y.range.0 as int);
        assert(xi == yi && xr == yr) by (nonlinear_arith)
            requires
                xi * 0x1_0000_0000 + xr == yi * 0x1_0000_0000 + yr,
                0 <= xr < 0x1_0000_0000,
                0 <= yr < 0x1_0000_0000,
                0 <= xi,
                0 <= yi,
        {
            if xi < yi {
                assert(xi * 0x1_0000_0000 + 0x1_0000_0000 <= yi * 0x1_0000_0000);
            } else if xi > yi {
                assert(yi * 0x1_0000_0000 + 0x1_0000_0000 <= xi * 0x1_0000_0000);
            }
        }
    }
    assert(a =~= b);
}

/// Compare two permutations lexicographically; a proper prefix is smaller.
pub fn compare_usizes(a: &Vec<usize>, b: &Vec<usize>) -> (r: i8)
    ensures
        -1 <= r <= 1,
        r == lex_order(usize_keys(a@), usize_keys(b@)),
        r == 0 <==> a@ == b@,
{
    let ghost ka = usize_keys(a@);
    let ghost kb = usize_keys(b@);
    proof {
        lemma_lex_step(ka, kb, 0);
    }
    let mut k: usize = 0;
    while k < a.len() && k < b.len()
        invariant
            k <= a.len(),
            k <= b.len(),
            ka == usize_keys(a@),
            kb == usize_keys(b@),
            forall|j: int| 0 <= j < k ==> a@[j] == b@[j],
            lex_order(ka, kb) == lex_order(ka.skip(k as int), kb.skip(k as int)),
        decreases a.len() - k,
    {
        proof {
            lemma_lex_step(ka, kb, k as int);
        }
        if a[k] < b[k] {
            return -1;
        }
        if a[k] > b[k] {
            return 1;
        }
        k = k + 1;
    }
    proof {
        lemma_lex_step(ka, kb, k as int);
    }
    if a.len() < b.len() {
        -1
    } else if a.len() > b.len() {
        1
    } else {
        assert(a@ =~= b@);
        0
    }
}

/// Compare two identity lists lexicographically; a proper prefix is smaller.
pub fn compare_index_ids(a: &Vec<IndexId>, b: &Vec<IndexId>) -> (r: i8)
    ensures
        -1 <= r <= 1,
        r == lex_order(id_keys(a@), id_keys(b@)),
        r == 0 <==> a@ == b@,
{
    let ghost ka = id_keys(a@);
    let ghost kb = id_keys(b@);
    proof {
        lemma_lex_step(ka, kb, 0);
    }
    let mut k: usize = 0;
    while k < a.len() && k < b.len()
        invariant
            k <= a.len(),
            k <= b.len(),
            ka == id_keys(a@),
            kb == id_keys(b@),
            forall|j: int| 0 <= j < k ==> a@[j] == b@[j],
            lex_order(ka, kb) == lex_order(ka.skip(k as int), kb.skip(k as int)),
        decreases a.len() - k,
    {
        proof {
            lemma_lex_step(ka, kb, k as int);
        }
        if a[k].0 < b[k].0 {
            return -1;
        }
        if a[k].0 > b[k].0 {
            return 1;
        }
        k = k + 1;
    }
    proof {
        lemma_lex_step(ka, kb, k as int);
    }
    if a.len() < b.len() {
        -1
    } else if a.len() > b.len() {
        1
    } else {
        assert(a@ =~= b@);
        0
    }
}

/// Compare two index lists lexicographically, each index by identity and
/// then range; a proper prefix is smaller.
pub fn compare_indices(a: &Vec<Index>, b: &Vec<Index>) -> (r: i8)
    ensures
        -1 <= r <= 1,
        r == lex_order(index_keys(a@), index_keys(b@)),
        r == 0 <==> a@ == b@,
{
    let ghost ka = index_keys(a@);
    let ghost kb = index_keys(b@);
    proof {
        lemma_lex_step(ka, kb, 0);
    }
    let mut k: usize = 0;
    while k < a.len() && k < b.len()
        invariant
            k <= a.len(),
            k <= b.len(),
            ka == index_keys(a@),
            kb == index_keys(b@),
            forall|j: int| 0 <= j < k ==> a@[j] == b@[j],
            lex_order(ka, kb) == lex_order(ka.skip(k as int), kb.skip(k as int)),
        decreases a.len() - k,
    {
        proof {
            lemma_lex_step(ka, kb, k as int);
            assert(ka[k as int] == index_key(a@[k as int]));
            assert(kb[k as int] == index_key(b@[k as int]));
        }
        if a[k].id.0 < b[k].id.0 {
            return -1;
        }
        if a[k].id.0 > b[k].id.0 {
            return 1;
        }
        if a[k].range.0 < b[k].range.0 {
            return -1;
        }
        if a[k].range.0 > b[k].range.0 {
            return 1;
        }
        k = k + 1;
    }
    proof {
        lemma_lex_step(ka, kb, k as int);
    }
    if a.len() < b.len() {
        -1
    } else if a.len() > b.len() {
        1
    } else {
        assert(a@ =~= b@);
        0
    }
}

/// Compare two coefficients numerically; equal representations compare equal.
pub fn compare_coefficients(a: &Coefficient, b: &Coefficient) -> (r: i8)
    ensures
        -1 <= r <= 1,
        r == 0 <==> a@ == b@,
        r == -1 <==> a@ != b@ && numer_value(a@) * denom_value(b@) < numer_value(b@) * denom_value(a@),
{
    if a.equals(b) {
        0
    } else if a.less_than(b) {
        -1
    } else {
        1
    }
}

} // verus!
