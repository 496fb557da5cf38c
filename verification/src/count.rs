//! Counting facts: distinct values drawn from a bounded range are few.

use vstd::arithmetic::power::pow;
use vstd::prelude::*;
use vstd::set_lib::{lemma_int_range, lemma_len_subset, set_int_range};

verus! {

/// A sequence of distinct integers from `0..n` has at most `n` elements.
pub proof fn lemma_distinct_bounded(s: Seq<int>, n: int)
    requires
        n >= 0,
        s.no_duplicates(),
        forall|k: int| 0 <= k < s.len() ==> 0 <= #[trigger] s[k] < n,
    ensures
        s.len() <= n,
{
    lemma_int_range(0, n);
    s.unique_seq_to_set();
    assert(s.to_set().subset_of(set_int_range(0, n))) by {
        assert forall|x: int| s.to_set().contains(x) implies set_int_range(0, n).contains(x) by {
            let k = choose|k: int| 0 <= k < s.len() && s[k] == x;
            assert(s[k] == x);
        }
    }
    lemma_len_subset(s.to_set(), set_int_range(0, n));
}

/// The number whose base-`r` digits, least significant first, are `digits`.
pub open spec fn digits_code(digits: Seq<usize>, r: nat) -> nat
    decreases digits.len(),
{
    if digits.len() == 0 {
        0
    } else {
        digits[0] as nat + r * digits_code(digits.drop_first(), r)
    }
}

pub proof fn lemma_digits_code_bound(digits: Seq<usize>, r: nat)
    requires
        r > 0,
        forall|k: int| 0 <= k < digits.len() ==> #[trigger] digits[k] < r,
    ensures
        digits_code(digits, r) < pow(r as int, digits.len()),
    decreases digits.len(),
{
    if digits.len() == 0 {
        assert(pow(r as int, 0) == 1) by {
            vstd::arithmetic::power::lemma_pow0(r as int);
        }
    } else {
        let rest = digits.drop_first();
        assert forall|k: int| 0 <= k < rest.len() implies #[trigger] rest[k] < r by {
            assert(rest[k] == digits[k + 1]);
        }
        lemma_digits_code_bound(rest, r);
        let c = digits_code(rest, r);
        let p = pow(r as int, rest.len());
        assert(pow(r as int, digits.len()) == r * p) by {
            vstd::arithmetic::power::lemma_pow_adds(r as int, 1, rest.len());
            vstd::arithmetic::power::lemma_pow1(r as int);
        }
        assert(digits[0] < r);
        assert(c + 1 <= p);
        assert(r * c + r <= r * p) by (nonlinear_arith)
            requires
                c + 1 <= p,
                r > 0,
        ;
    }
}

pub proof fn lemma_digits_code_injective(a: Seq<usize>, b: Seq<usize>, r: nat)
    requires
        r > 0,
        a.len() == b.len(),
        forall|k: int| 0 <= k < a.len() ==> #[trigger] a[k] < r,
        forall|k: int| 0 <= k < b.len() ==> #[trigger] b[k] < r,
        digits_code(a, r) == digits_code(b, r),
    ensures
        a =~= b,
    decreases a.len(),
{
    if a.len() > 0 {
        let ra = a.drop_first();
        let rb = b.drop_first();
        let ca = digits_code(ra, r);
        let cb = digits_code(rb, r);
        let x = a[0] as int;
        let y = b[0] as int;
        assert(x + r * ca == y + r * cb);
        assert(x == y && ca == cb) by (nonlinear_arith)
            requires
                x + r * ca == y + r * cb,
                0 <= x < r,
                0 <= y < r,
                ca >= 0,
                cb >= 0,
        {
            if ca < cb {
                assert(r * ca + r <= r * cb);
            } else if cb < ca {
                assert(r * cb + r <= r * ca);
            }
        }
        assert forall|k: int| 0 <= k < ra.len() implies #[trigger] ra[k] < r by {
            assert(ra[k] == a[k + 1]);
        }
        assert forall|k: int| 0 <= k < rb.len() implies #[trigger] rb[k] < r by {
            assert(rb[k] == b[k + 1]);
        }
        lemma_digits_code_injective(ra, rb, r);
        assert forall|k: int| 0 <= k < a.len() implies a[k] == b[k] by {
            if k > 0 {
                assert(a[k] == ra[k - 1]);
                assert(b[k] == rb[k - 1]);
            }
        }
    }
}

/// An injective map of `0..n` into itself reaches every position.
pub proof fn lemma_perm_onto(perm: Seq<usize>, n: nat, k: int)
    requires
        crate::valid::perm_valid(perm, n),
        0 <= k < n,
    ensures
        exists|j: int| 0 <= j < n && #[trigger] perm[j] == k,
{
    if !(exists|j: int| 0 <= j < n && #[trigger] perm[j] == k) {
        let s = Seq::new(n, |j: int| if perm[j] > k { perm[j] - 1 } else { perm[j] as int });
        assert forall|j: int| 0 <= j < s.len() implies 0 <= #[trigger] s[j] < n - 1 by {
            assert(perm[j] < n);
            assert(perm[j] != k);
        }
        assert(s.no_duplicates()) by {
            assert forall|a: int, b: int| 0 <= a < s.len() && 0 <= b < s.len() && a != b implies s[a]
                != s[b] by {
                assert(perm[a] != perm[b]);
                assert(perm[a] != k && perm[b] != k);
            }
        }
        lemma_distinct_bounded(s, n - 1);
    }
}

} // verus!
