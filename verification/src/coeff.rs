//! Exact rational coefficients.
//!
//! A coefficient holds the minimal two's-complement little-endian bytes of
//! a reduced fraction, so that its bytes are determined by its value. All
//! arithmetic is carried out by `num_rational::BigRational`.

use num_bigint::BigInt;
use num_rational::BigRational;
use num_traits::Zero;
use vstd::arithmetic::power::pow;
use vstd::prelude::*;

verus! {

/// The unsigned value of little-endian base-256 digits.
pub open spec fn unsigned_le(bytes: Seq<u8>) -> nat
    decreases bytes.len(),
{
    if bytes.len() == 0 {
        0
    } else {
        bytes[0] as nat + 256 * unsigned_le(bytes.drop_first())
    }
}

/// The two's-complement value of little-endian base-256 digits.
pub open spec fn signed_le(bytes: Seq<u8>) -> int {
    if bytes.len() == 0 {
        0
    } else if bytes.last() > 0x7f {
        unsigned_le(bytes) - pow(256, bytes.len())
    } else {
        unsigned_le(bytes) as int
    }
}

/// The abstract form of a coefficient: numerator and denominator bytes.
pub type CoeffView = (Seq<u8>, Seq<u8>);

pub open spec fn numer_value(c: CoeffView) -> int {
    signed_le(c.0)
}

pub open spec fn denom_value(c: CoeffView) -> int {
    signed_le(c.1)
}

pub open spec fn divides(k: int, n: int) -> bool {
    n % k == 0
}

/// A fraction with a positive denominator and no common factor.
pub open spec fn in_lowest_terms(n: int, d: int) -> bool {
    &&& d > 0
    &&& forall|k: int| k > 1 ==> !(#[trigger] divides(k, n) && #[trigger] divides(k, d))
}

pub open spec fn is_zero_value(c: CoeffView) -> bool {
    numer_value(c) == 0
}

/// Minimal two's-complement bytes: at least one byte, and a top byte that
/// does not merely repeat the sign of the byte below it.
pub open spec fn minimal_le(bytes: Seq<u8>) -> bool {
    &&& bytes.len() >= 1
    &&& bytes.len() >= 2 ==> !(bytes.last() == 0 && bytes[bytes.len() - 2] < 0x80)
    &&& bytes.len() >= 2 ==> !(bytes.last() == 0xff && bytes[bytes.len() - 2] >= 0x80)
}

/// A coefficient in lowest terms whose numerator and denominator are held
/// in minimal bytes.
pub open spec fn canonical_coeff(c: CoeffView) -> bool {
    &&& in_lowest_terms(numer_value(c), denom_value(c))
    &&& minimal_le(c.0)
    &&& minimal_le(c.1)
}

/// Two coefficients stand for the same rational number.
pub open spec fn same_value(a: CoeffView, b: CoeffView) -> bool {
    numer_value(a) * denom_value(b) == numer_value(b) * denom_value(a)
}

/// The value of one byte.
proof fn lemma_signed_one(b: Seq<u8>)
    requires
        b.len() == 1,
    ensures
        signed_le(b) == if b[0] > 0x7f { b[0] - 256 } else { b[0] as int },
{
    assert(b.drop_first().len() == 0);
    assert(unsigned_le(b.drop_first()) == 0);
    assert(unsigned_le(b) == b[0] as nat);
    vstd::arithmetic::power::lemma_pow1(256);
}

/// The value of several bytes: the low byte plus 256 times the value of the
/// rest.
proof fn lemma_signed_step(b: Seq<u8>)
    requires
        b.len() >= 2,
    ensures
        signed_le(b) == b[0] + 256 * signed_le(b.drop_first()),
{
    let rest = b.drop_first();
    assert(rest.last() == b.last());
    assert(pow(256, b.len() as nat) == 256 * pow(256, rest.len() as nat)) by {
        reveal(pow);
    }
}

/// Minimal bytes of one value are unique.
proof fn lemma_minimal_unique(a: Seq<u8>, b: Seq<u8>)
    requires
        minimal_le(a),
        minimal_le(b),
        signed_le(a) == signed_le(b),
    ensures
        a == b,
    decreases a.len() + b.len(), 1int,
{
    if a.len() == 1 && b.len() == 1 {
        lemma_signed_one(a);
        lemma_signed_one(b);
        assert(a =~= b);
    } else if a.len() == 1 {
        lemma_minimal_short(a, b);
    } else if b.len() == 1 {
        lemma_minimal_short(b, a);
    } else {
        lemma_signed_step(a);
        lemma_signed_step(b);
        let ra = a.drop_first();
        let rb = b.drop_first();
        assert(a[0] == b[0]);
        assert(signed_le(ra) == signed_le(rb));
        if ra.len() >= 2 {
            assert(ra[ra.len() - 2] == a[a.len() - 2]);
        }
        if rb.len() >= 2 {
            assert(rb[rb.len() - 2] == b[b.len() - 2]);
        }
        lemma_minimal_unique(ra, rb);
        assert forall|i: int| 0 <= i < a.len() implies a[i] == b[i] by {
            if i > 0 {
                assert(a[i] == ra[i - 1]);
                assert(b[i] == rb[i - 1]);
            }
        }
        assert(a =~= b);
    }
}

/// One byte and several minimal bytes never hold the same value.
proof fn lemma_minimal_short(a: Seq<u8>, b: Seq<u8>)
    requires
        minimal_le(a),
        minimal_le(b),
        a.len() == 1,
        b.len() >= 2,
    ensures
        signed_le(a) != signed_le(b),
    decreases a.len() + b.len(), 0int,
{
    lemma_signed_one(a);
    lemma_signed_step(b);
    let rb = b.drop_first();
    if rb.len() >= 2 {
        assert(rb[rb.len() - 2] == b[b.len() - 2]);
    }
    if signed_le(a) == signed_le(b) {
        if signed_le(rb) == 0 {
            let zero = seq![0u8];
            lemma_signed_one(zero);
            lemma_minimal_unique(zero, rb);
            assert(b.len() == 2 && b.last() == 0);
        } else {
            assert(signed_le(rb) == -1);
            let ones = seq![0xffu8];
            lemma_signed_one(ones);
            lemma_minimal_unique(ones, rb);
            assert(b.len() == 2 && b.last() == 0xff);
        }
    }
}

/// The greatest common divisor of `a` and `b > 0`, with Bezout coefficients.
proof fn lemma_bezout(a: int, b: int) -> (r: (int, int, int))
    requires
        b > 0,
    ensures
        r.0 > 0,
        a % r.0 == 0,
        b % r.0 == 0,
        r.0 == a * r.1 + b * r.2,
    decreases b,
{
    broadcast use vstd::arithmetic::div_mod::lemma_fundamental_div_mod;
    if a % b == 0 {
        vstd::arithmetic::div_mod::lemma_mod_multiples_basic(1, b);
        (b, 0, 1)
    } else {
        let q = a / b;
        let m = a % b;
        assert(a == b * q + m);
        let (g, x, y) = lemma_bezout(b, m);
        let kb = b / g;
        let km = m / g;
        assert(b == g * kb + b % g);
        assert(m == g * km + m % g);
        assert(a == (kb * q + km) * g) by (nonlinear_arith)
            requires
                a == b * q + m,
                b == g * kb,
                m == g * km,
        ;
        vstd::arithmetic::div_mod::lemma_mod_multiples_basic(kb * q + km, g);
        assert(g == a * y + b * (x - q * y)) by (nonlinear_arith)
            requires
                g == b * x + m * y,
                a == b * q + m,
        ;
        (g, y, x - q * y)
    }
}

/// A fraction in lowest terms is the only one of its value.
proof fn lemma_lowest_terms_unique(n1: int, d1: int, n2: int, d2: int)
    requires
        in_lowest_terms(n1, d1),
        in_lowest_terms(n2, d2),
        n1 * d2 == n2 * d1,
    ensures
        n1 == n2,
        d1 == d2,
{
    let (g1, x1, y1) = lemma_bezout(n1, d1);
    if g1 > 1 {
        assert(divides(g1, n1) && divides(g1, d1));
    }
    let (g2, x2, y2) = lemma_bezout(n2, d2);
    if g2 > 1 {
        assert(divides(g2, n2) && divides(g2, d2));
    }
    assert(d2 == d1 * (n2 * x1 + d2 * y1)) by (nonlinear_arith)
        requires
            1 == n1 * x1 + d1 * y1,
            n1 * d2 == n2 * d1,
    ;
    assert(d1 == d2 * (n1 * x2 + d1 * y2)) by (nonlinear_arith)
        requires
            1 == n2 * x2 + d2 * y2,
            n1 * d2 == n2 * d1,
    ;
    let q1 = n2 * x1 + d2 * y1;
    let q2 = n1 * x2 + d1 * y2;
    assert(d1 == d2) by (nonlinear_arith)
        requires
            d1 > 0,
            d2 > 0,
            d2 == d1 * q1,
            d1 == d2 * q2,
    ;
    assert(n1 == n2) by (nonlinear_arith)
        requires
            d1 > 0,
            d1 == d2,
            n1 * d2 == n2 * d1,
    ;
}

/// Two canonical coefficients of the same value are the same coefficient.
pub proof fn lemma_same_value_same_view(a: CoeffView, b: CoeffView)
    requires
        canonical_coeff(a),
        canonical_coeff(b),
        same_value(a, b),
    ensures
        a == b,
{
    lemma_lowest_terms_unique(numer_value(a), denom_value(a), numer_value(b), denom_value(b));
    lemma_minimal_unique(a.0, b.0);
    lemma_minimal_unique(a.1, b.1);
}

/// The representation that `BigRational::from_integer` gives an integer.
pub uninterp spec fn ratio_of_integer(n: int) -> CoeffView;

/// The representation that `BigRational::new` gives a fraction.
pub uninterp spec fn ratio_of_fraction(n: int, d: int) -> CoeffView;

/// The representation of the sum that `BigRational`'s `+` computes.
pub uninterp spec fn ratio_sum(a: CoeffView, b: CoeffView) -> CoeffView;

/// The representation of the product that `BigRational`'s `*` computes.
pub uninterp spec fn ratio_product(a: CoeffView, b: CoeffView) -> CoeffView;

/// The representation of the quotient that `BigRational`'s `/` computes.
pub uninterp spec fn ratio_quotient(a: CoeffView, b: CoeffView) -> CoeffView;

/// The representation of the negation that `BigRational`'s unary `-` computes.
pub uninterp spec fn ratio_negation(a: CoeffView) -> CoeffView;

/// The text that `BigRational`'s `Display` writes.
pub uninterp spec fn ratio_text(a: CoeffView) -> Seq<char>;

/// What `BigRational`'s `FromStr` reads from a text.
pub uninterp spec fn ratio_parse(text: Seq<char>) -> Option<CoeffView>;

/// An exact rational number.
#[derive(Debug, PartialEq, Eq, Hash)]
pub struct Coefficient {
    numer: Vec<u8>,
    denom: Vec<u8>,
}

impl View for Coefficient {
    type V = CoeffView;

    closed spec fn view(&self) -> CoeffView {
        (self.numer@, self.denom@)
    }
}

impl Coefficient {
    #[verifier::type_invariant]
    spec fn is_canonical(self) -> bool {
        canonical_coeff(self@)
    }

    /// The integer `value` (`BigRational::from_integer`).
    /// The result is reduced with a positive denominator, and both parts are
    /// written by num-bigint's `to_signed_bytes_le`, which gives minimal bytes.
    #[verifier::external_body]
    pub fn from_integer(value: i64) -> (r: Coefficient)
        ensures
            r@ == ratio_of_integer(value as int),
            numer_value(r@) == value,
            denom_value(r@) == 1,
            canonical_coeff(r@),
    {
        let r = BigRational::from_integer(BigInt::from(value));
        Coefficient { numer: r.numer().to_signed_bytes_le(), denom: r.denom().to_signed_bytes_le() }
    }

    /// The fraction `numer / denom` in lowest terms (`BigRational::new`).
    /// The result is reduced with a positive denominator, and both parts are
    /// written by num-bigint's `to_signed_bytes_le`, which gives minimal bytes.
    #[verifier::external_body]
    pub fn new(numer: i64, denom: i64) -> (r: Coefficient)
        requires
            denom != 0,
        ensures
            r@ == ratio_of_fraction(numer as int, denom as int),
            numer_value(r@) * denom == numer * denom_value(r@),
            canonical_coeff(r@),
    {
        let r = BigRational::new(BigInt::from(numer), BigInt::from(denom));
        Coefficient { numer: r.numer().to_signed_bytes_le(), denom: r.denom().to_signed_bytes_le() }
    }

    /// The sum of two coefficients (`BigRational`'s `+`).
    /// The result is reduced with a positive denominator, and both parts are
    /// written by num-bigint's `to_signed_bytes_le`, which gives minimal bytes.
    #[verifier::external_body]
    pub fn add(&self, other: &Coefficient) -> (r: Coefficient)
        ensures
            r@ == ratio_sum(self@, other@),
            numer_value(r@) * denom_value(self@) * denom_value(other@) == (numer_value(self@)
                * denom_value(other@) + numer_value(other@) * denom_value(self@)) * denom_value(
                r@,
            ),
            canonical_coeff(r@),
    {
        let r = BigRational::new_raw(
            BigInt::from_signed_bytes_le(&self.numer),
            BigInt::from_signed_bytes_le(&self.denom),
        ) + BigRational::new_raw(
            BigInt::from_signed_bytes_le(&other.numer),
            BigInt::from_signed_bytes_le(&other.denom),
        );
        Coefficient { numer: r.numer().to_signed_bytes_le(), denom: r.denom().to_signed_bytes_le() }
    }

    /// The product of two coefficients (`BigRational`'s `*`).
    /// The result is reduced with a positive denominator, and both parts are
    /// written by num-bigint's `to_signed_bytes_le`, which gives minimal bytes.
    #[verifier::external_body]
    pub fn mul(&self, other: &Coefficient) -> (r: Coefficient)
        ensures
            r@ == ratio_product(self@, other@),
            numer_value(r@) * denom_value(self@) * denom_value(other@) == numer_value(self@)
                * numer_value(other@) * denom_value(r@),
            is_zero_value(r@) <==> (is_zero_value(self@) || is_zero_value(other@)),
            canonical_coeff(r@),
    {
        let r = BigRational::new_raw(
            BigInt::from_signed_bytes_le(&self.numer),
            BigInt::from_signed_bytes_le(&self.denom),
        ) * BigRational::new_raw(
            BigInt::from_signed_bytes_le(&other.numer),
            BigInt::from_signed_bytes_le(&other.denom),
        );
        Coefficient { numer: r.numer().to_signed_bytes_le(), denom: r.denom().to_signed_bytes_le() }
    }

    /// The quotient of two coefficients (`BigRational`'s `/`, which panics on
    /// a zero divisor).
    /// The result is reduced with a positive denominator, and both parts are
    /// written by num-bigint's `to_signed_bytes_le`, which gives minimal bytes.
    #[verifier::external_body]
    pub fn div(&self, other: &Coefficient) -> (r: Coefficient)
        requires
            !is_zero_value(other@),
        ensures
            r@ == ratio_quotient(self@, other@),
            numer_value(r@) * denom_value(self@) * numer_value(other@) == numer_value(self@)
                * denom_value(other@) * denom_value(r@),
            is_zero_value(r@) <==> is_zero_value(self@),
            canonical_coeff(r@),
    {
        let r = BigRational::new_raw(
            BigInt::from_signed_bytes_le(&self.numer),
            BigInt::from_signed_bytes_le(&self.denom),
        ) / BigRational::new_raw(
            BigInt::from_signed_bytes_le(&other.numer),
            BigInt::from_signed_bytes_le(&other.denom),
        );
        Coefficient { numer: r.numer().to_signed_bytes_le(), denom: r.denom().to_signed_bytes_le() }
    }

    /// The negation of a coefficient (`BigRational`'s unary `-`).
    /// The result is reduced with a positive denominator, and both parts are
    /// written by num-bigint's `to_signed_bytes_le`, which gives minimal bytes.
    #[verifier::external_body]
    pub fn neg(&self) -> (r: Coefficient)
        ensures
            r@ == ratio_negation(self@),
            numer_value(r@) == -numer_value(self@),
            denom_value(r@) == denom_value(self@),
            canonical_coeff(r@),
    {
        let r = -BigRational::new_raw(
            BigInt::from_signed_bytes_le(&self.numer),
            BigInt::from_signed_bytes_le(&self.denom),
        );
        Coefficient { numer: r.numer().to_signed_bytes_le(), denom: r.denom().to_signed_bytes_le() }
    }

    /// Whether the coefficient is zero (`Zero::is_zero`).
    #[verifier::external_body]
    pub fn is_zero(&self) -> (r: bool)
        ensures
            r == is_zero_value(self@),
    {
        BigRational::new_raw(
            BigInt::from_signed_bytes_le(&self.numer),
            BigInt::from_signed_bytes_le(&self.denom),
        ).is_zero()
    }

    /// Whether `self` is smaller than `other` (`BigRational`'s `<`).
    #[verifier::external_body]
    pub fn less_than(&self, other: &Coefficient) -> (r: bool)
        ensures
            r == (numer_value(self@) * denom_value(other@) < numer_value(other@) * denom_value(
                self@,
            )),
    {
        BigRational::new_raw(
            BigInt::from_signed_bytes_le(&self.numer),
            BigInt::from_signed_bytes_le(&self.denom),
        ) < BigRational::new_raw(
            BigInt::from_signed_bytes_le(&other.numer),
            BigInt::from_signed_bytes_le(&other.denom),
        )
    }

    /// The text `numer/denom`, or `numer` for an integer (`BigRational`'s
    /// `Display`).
    #[verifier::external_body]
    pub fn to_text(&self) -> (r: String)
        ensures
            r@ == ratio_text(self@),
    {
        BigRational::new_raw(
            BigInt::from_signed_bytes_le(&self.numer),
            BigInt::from_signed_bytes_le(&self.denom),
        ).to_string()
    }

    /// Reads `numer/denom` or `numer` (`BigRational`'s `FromStr`), which
    /// fails on malformed text and on a zero denominator.
    /// The result is reduced with a positive denominator, and both parts are
    /// written by num-bigint's `to_signed_bytes_le`, which gives minimal bytes.
    #[verifier::external_body]
    pub fn parse(text: &str) -> (r: Option<Coefficient>)
        ensures
            r is None <==> ratio_parse(text@) is None,
            r matches Some(c) ==> ratio_parse(text@) == Some(c@),
            r matches Some(c) ==> canonical_coeff(c@),
    {
        match text.parse::<BigRational>() {
            Ok(r) => Some(
                Coefficient {
                    numer: r.numer().to_signed_bytes_le(),
                    denom: r.denom().to_signed_bytes_le(),
                },
            ),
            Err(_) => None,
        }
    }

    /// Exact equality of two coefficients: the same bytes, which is the same
    /// rational value.
    pub fn equals(&self, other: &Coefficient) -> (r: bool)
        ensures
            r == (self@ == other@),
            r == same_value(self@, other@),
    {
        proof {
            use_type_invariant(self);
            use_type_invariant(other);
            if same_value(self@, other@) {
                lemma_same_value_same_view(self@, other@);
            }
        }
        if self.numer.len() != other.numer.len() || self.denom.len() != other.denom.len() {
            return false;
        }
        let mut i: usize = 0;
        while i < self.numer.len()
            invariant
                i <= self.numer.len() == other.numer.len(),
                forall|j: int| 0 <= j < i ==> self.numer@[j] == other.numer@[j],
                same_value(self@, other@) ==> self@ == other@,
            decreases self.numer.len() - i,
        {
            if self.numer[i] != other.numer[i] {
                return false;
            }
            i = i + 1;
        }
        let mut j: usize = 0;
        while j < self.denom.len()
            invariant
                j <= self.denom.len() == other.denom.len(),
                forall|k: int| 0 <= k < j ==> self.denom@[k] == other.denom@[k],
                same_value(self@, other@) ==> self@ == other@,
            decreases self.denom.len() - j,
        {
            if self.denom[j] != other.denom[j] {
                return false;
            }
            j = j + 1;
        }
        assert(self.numer@ =~= other.numer@);
        assert(self.denom@ =~= other.denom@);
        true
    }
}

impl Clone for Coefficient {
    fn clone(&self) -> (r: Self)
        ensures
            r@ == self@,
    {
        proof {
            use_type_invariant(self);
        }
        let numer = self.numer.clone();
        let denom = self.denom.clone();
        assert(numer@ =~= self.numer@);
        assert(denom@ =~= self.denom@);
        Coefficient { numer, denom }
    }
}

} // verus!
