//! Exact numbers: fractions of two 64-bit integers, kept in lowest terms.
//!
//! Every arithmetic operation is exact. Where the exact result has no
//! representation (a zero divisor, or a numerator or denominator that leaves
//! the 64-bit range) the operation yields `None`.
use vstd::prelude::*;
use vstd::arithmetic::div_mod::*;
use vstd::arithmetic::mul::*;
use crate::text::{chars_of, slice_of};

verus! {

/// Greatest common divisor of two naturals, by Euclid's rule.
pub open spec fn gcd(a: nat, b: nat) -> nat
    decreases b,
{
    if b == 0 {
        a
    } else {
        gcd(b, a % b)
    }
}

/// Absolute value.
pub open spec fn magnitude(n: int) -> nat {
    if n < 0 {
        (-n) as nat
    } else {
        n as nat
    }
}

/// Numerator of `n / d` in lowest terms, the sign carried by the numerator.
pub open spec fn lowest_num(n: int, d: int) -> int {
    let q = (magnitude(n) / gcd(magnitude(n), magnitude(d))) as int;
    if (n < 0) == (d < 0) {
        q
    } else {
        -q
    }
}

/// Denominator of `n / d` in lowest terms; positive whenever `d != 0`.
pub open spec fn lowest_den(n: int, d: int) -> int {
    (magnitude(d) / gcd(magnitude(n), magnitude(d))) as int
}

/// Whether `n / d` is a fraction whose lowest terms fit the representation.
pub open spec fn representable(n: int, d: int) -> bool {
    &&& d != 0
    &&& i64::MIN <= lowest_num(n, d) <= i64::MAX
    &&& lowest_den(n, d) <= i64::MAX
}

/// `gcd(a, b)` is positive unless both arguments are zero.
pub proof fn lemma_gcd_positive(a: nat, b: nat)
    requires
        a > 0 || b > 0,
    ensures
        gcd(a, b) > 0,
    decreases b,
{
    if b != 0 {
        lemma_gcd_positive(b, a % b);
    }
}

/// `gcd(a, b)` divides both of its arguments.
pub proof fn lemma_gcd_divides(a: nat, b: nat)
    requires
        a > 0 || b > 0,
    ensures
        a % gcd(a, b) == 0,
        b % gcd(a, b) == 0,
    decreases b,
{
    lemma_gcd_positive(a, b);
    let g = gcd(a, b) as int;
    if b == 0 {
        lemma_mod_self_0(a as int);
        lemma_small_mod(0, a);
    } else {
        lemma_gcd_divides(b, a % b);
        let r = (a % b) as int;
        let q = (a / b) as int;
        lemma_fundamental_div_mod(a as int, b as int);
        assert(a as int == b as int * q + r);
        lemma_fundamental_div_mod(b as int, g);
        lemma_fundamental_div_mod(r, g);
        let kb = b as int / g;
        let kr = r / g;
        assert(b as int == g * kb);
        assert(r == g * kr);
        assert(a as int == g * (kb * q + kr)) by (nonlinear_arith)
            requires
                a as int == b as int * q + r,
                b as int == g * kb,
                r == g * kr,
        ;
        lemma_mod_multiples_basic(kb * q + kr, g);
        assert((kb * q + kr) * g == g * (kb * q + kr)) by (nonlinear_arith);
    }
}

/// Dividing out the greatest common divisor leaves the value of a fraction
/// unchanged: `lowest_num / lowest_den == n / d`, stated without division.
pub proof fn lemma_lowest_terms(n: int, d: int)
    requires
        d != 0,
    ensures
        lowest_den(n, d) > 0,
        lowest_num(n, d) * d == n * lowest_den(n, d),
        magnitude(lowest_num(n, d)) <= magnitude(n),
        lowest_den(n, d) <= magnitude(d),
        lowest(lowest_num(n, d), lowest_den(n, d)),
{
    let a = magnitude(n);
    let b = magnitude(d);
    lemma_lowest_terms_coprime(a, b);
    lemma_gcd_positive(a, b);
    lemma_gcd_divides(a, b);
    let g = gcd(a, b) as int;
    let qa = a as int / g;
    let qb = b as int / g;
    lemma_fundamental_div_mod(a as int, g);
    lemma_fundamental_div_mod(b as int, g);
    assert(a as int == g * qa);
    assert(b as int == g * qb);
    assert(qb > 0 && qa >= 0 && qa <= a && qb <= b) by (nonlinear_arith)
        requires
            a as int == g * qa,
            b as int == g * qb,
            g > 0,
            b > 0,
            a >= 0,
    ;
    assert(qa * b == a * qb) by (nonlinear_arith)
        requires
            a as int == g * qa,
            b as int == g * qb,
    ;
    assert(lowest_num(n, d) * d == n * lowest_den(n, d)) by (nonlinear_arith)
        requires
            qa * b == a * qb,
            lowest_den(n, d) == qb,
            lowest_num(n, d) == (if (n < 0) == (d < 0) {
                qa
            } else {
                -qa
            }),
            a == (if n < 0 {
                -n
            } else {
                n
            }),
            b == (if d < 0 {
                -d
            } else {
                d
            }),
    ;
}

/// Every common divisor of two naturals divides their greatest common
/// divisor.
pub proof fn lemma_gcd_greatest(a: nat, b: nat, c: nat)
    requires
        c > 0,
        a % c == 0,
        b % c == 0,
    ensures
        gcd(a, b) % c == 0,
    decreases b,
{
    if b != 0 {
        let q = (a / b) as int;
        let r = (a % b) as int;
        lemma_fundamental_div_mod(a as int, b as int);
        lemma_fundamental_div_mod(a as int, c as int);
        lemma_fundamental_div_mod(b as int, c as int);
        let ka = a as int / c as int;
        let kb = b as int / c as int;
        assert(r == (ka - kb * q) * c) by (nonlinear_arith)
            requires
                a as int == b as int * q + r,
                a as int == c as int * ka,
                b as int == c as int * kb,
        ;
        lemma_mod_multiples_basic(ka - kb * q, c as int);
        lemma_gcd_greatest(b, (a % b) as nat, c);
    }
}

/// A fraction in lowest terms has no common divisor left: the greatest
/// common divisor of its numerator and denominator is one.
pub proof fn lemma_lowest_terms_coprime(a: nat, b: nat)
    requires
        b > 0,
    ensures
        gcd(a / gcd(a, b), b / gcd(a, b)) == 1,
{
    lemma_gcd_positive(a, b);
    lemma_gcd_divides(a, b);
    let g = gcd(a, b) as int;
    let qa = a as int / g;
    let qb = b as int / g;
    lemma_fundamental_div_mod(a as int, g);
    lemma_fundamental_div_mod(b as int, g);
    assert(qb > 0 && qa >= 0) by (nonlinear_arith)
        requires
            a as int == g * qa,
            b as int == g * qb,
            g > 0,
            b > 0,
            a >= 0,
    ;
    lemma_gcd_positive(qa as nat, qb as nat);
    lemma_gcd_divides(qa as nat, qb as nat);
    let h = gcd(qa as nat, qb as nat) as int;
    lemma_fundamental_div_mod(qa, h);
    lemma_fundamental_div_mod(qb, h);
    let ra = qa / h;
    let rb = qb / h;
    assert(a as int == ra * (g * h) && b as int == rb * (g * h) && g * h > 0) by (nonlinear_arith)
        requires
            a as int == g * qa,
            b as int == g * qb,
            qa == h * ra,
            qb == h * rb,
            g > 0,
            h > 0,
    ;
    lemma_mod_multiples_basic(ra, g * h);
    lemma_mod_multiples_basic(rb, g * h);
    lemma_gcd_greatest(a, b, (g * h) as nat);
    lemma_fundamental_div_mod(g, g * h);
    let k = g / (g * h);
    assert(h == 1) by (nonlinear_arith)
        requires
            g == (g * h) * k,
            g > 0,
            h > 0,
    ;
}

/// Scaling both arguments scales the greatest common divisor.
pub proof fn lemma_gcd_scales(k: nat, x: nat, y: nat)
    requires
        k > 0,
    ensures
        gcd(k * x, k * y) == k * gcd(x, y),
    decreases y,
{
    if y == 0 {
        assert(k * y == 0) by (nonlinear_arith)
            requires
                y == 0,
        ;
    } else {
        assert(k * y > 0) by (nonlinear_arith)
            requires
                k > 0,
                y > 0,
        ;
        lemma_truncate_middle(x as int, k as int, y as int);
        assert((k * x) % (k * y) == k * (x % y));
        lemma_gcd_scales(k, y, x % y);
    }
}

/// Whether `n / d` is in lowest terms.
pub open spec fn lowest(n: int, d: int) -> bool {
    gcd(magnitude(n), magnitude(d)) == 1
}

/// Two fractions of one value that are both in lowest terms, with positive
/// denominators, are the same fraction.
pub proof fn lemma_lowest_terms_unique(an: int, ad: int, bn: int, bd: int)
    requires
        ad > 0,
        bd > 0,
        lowest(an, ad),
        lowest(bn, bd),
        an * bd == bn * ad,
    ensures
        an == bn,
        ad == bd,
{
    let x = magnitude(an);
    let y = magnitude(bn);
    assert(x * bd == y * ad && ((an < 0) == (bn < 0) || x == 0 || y == 0)) by (nonlinear_arith)
        requires
            an * bd == bn * ad,
            ad > 0,
            bd > 0,
            x == (if an < 0 {
                -an
            } else {
                an
            }),
            y == (if bn < 0 {
                -bn
            } else {
                bn
            }),
    ;
    lemma_gcd_scales(bd as nat, x, ad as nat);
    lemma_gcd_scales(ad as nat, y, bd as nat);
    assert(bd as nat * x == ad as nat * y) by (nonlinear_arith)
        requires
            x * bd == y * ad,
            ad > 0,
            bd > 0,
    ;
    assert(bd as nat * (ad as nat) == ad as nat * (bd as nat)) by (nonlinear_arith);
    assert(gcd(bd as nat * x, bd as nat * (ad as nat)) == bd as nat * 1);
    assert(gcd(ad as nat * y, ad as nat * (bd as nat)) == ad as nat * 1);
    assert(ad == bd);
    assert(x == y) by (nonlinear_arith)
        requires
            x * bd == y * ad,
            ad == bd,
            bd > 0,
    ;
    if x == 0 {
        assert(an == 0 && bn == 0);
    }
}

/// Whether `c` is one of the ten decimal digits.
pub open spec fn is_digit(c: char) -> bool {
    '0' <= c <= '9'
}

/// The value of the decimal digit `c`.
pub open spec fn digit_value(c: char) -> nat {
    (c as u32 - '0' as u32) as nat
}

/// The natural number that a sequence of decimal digits writes.
pub open spec fn digits_value(s: Seq<char>) -> nat
    decreases s.len(),
{
    if s.len() == 0 {
        0
    } else {
        digits_value(s.drop_last()) * 10 + digit_value(s.last())
    }
}

/// Whether every character of `s` is a decimal digit.
pub open spec fn all_digits(s: Seq<char>) -> bool {
    forall|i: int| 0 <= i < s.len() ==> is_digit(#[trigger] s[i])
}

/// Ten to the power `k`.
pub open spec fn pow10(k: nat) -> nat
    decreases k,
{
    if k == 0 {
        1
    } else {
        10 * pow10((k - 1) as nat)
    }
}

/// A longer digit string never writes a smaller number than its beginning.
pub proof fn lemma_digits_value_grows(s: Seq<char>, k: int)
    requires
        0 <= k <= s.len(),
    ensures
        digits_value(s.take(k)) <= digits_value(s),
    decreases s.len(),
{
    if k == s.len() {
        assert(s.take(k) == s);
    } else {
        lemma_digits_value_grows(s.drop_last(), k);
        assert(s.drop_last().take(k) == s.take(k));
    }
}

/// Powers of ten grow with the exponent.
pub proof fn lemma_pow10_grows(j: nat, k: nat)
    requires
        j <= k,
    ensures
        1 <= pow10(j) <= pow10(k),
    decreases k,
{
    if k > 0 {
        if j < k {
            lemma_pow10_grows(j, (k - 1) as nat);
        } else {
            lemma_pow10_grows((j - 1) as nat, (k - 1) as nat);
        }
    }
}

/// The end of the run of decimal digits that starts at `i`.
pub open spec fn digits_end(s: Seq<char>, i: int) -> int
    decreases s.len() - i,
{
    if 0 <= i < s.len() && is_digit(s[i]) {
        digits_end(s, i + 1)
    } else {
        i
    }
}

/// A run of digits ends within the text.
pub proof fn lemma_digits_end(s: Seq<char>, i: int)
    requires
        0 <= i <= s.len(),
    ensures
        i <= digits_end(s, i) <= s.len(),
    decreases s.len() - i,
{
    if i < s.len() && is_digit(s[i]) {
        lemma_digits_end(s, i + 1);
    }
}

/// The parts of a number in scientific notation: an optional `-`, digits,
/// an optional `.` with digits, an optional `e` or `E` with an optional sign
/// and digits.
pub struct Notation {
    pub negative: bool,
    pub whole: Seq<char>,
    pub frac: Seq<char>,
    pub shrinking: bool,
    pub exponent: Seq<char>,
    /// Whether the text is such a number from its first character to its last.
    pub complete: bool,
}

/// The parts of the text `s`, read as a number in scientific notation.
pub open spec fn notation(s: Seq<char>) -> Notation {
    let negative = s.len() > 0 && s[0] == '-';
    let a: int = if negative {
        1
    } else {
        0
    };
    let b = digits_end(s, a);
    let dotted = b < s.len() && s[b] == '.';
    let c = if dotted {
        digits_end(s, b + 1)
    } else {
        b
    };
    let powered = c < s.len() && (s[c] == 'e' || s[c] == 'E');
    let signed = powered && c + 1 < s.len() && (s[c + 1] == '-' || s[c + 1] == '+');
    let d = if signed {
        c + 2
    } else if powered {
        c + 1
    } else {
        c
    };
    let e = digits_end(s, d);
    Notation {
        negative,
        whole: s.subrange(a, b),
        frac: if dotted {
            s.subrange(b + 1, c)
        } else {
            Seq::empty()
        },
        shrinking: signed && s[c + 1] == '-',
        exponent: s.subrange(d, e),
        complete: a < b && (dotted ==> b + 1 < c) && (powered ==> d < e) && e == s.len(),
    }
}

/// An exact number: a fraction in lowest terms with a positive denominator.
#[derive(Debug, PartialEq, Eq, Clone, Copy, Structural)]
pub struct Number {
    num: i64,
    den: i64,
}

impl Number {
    #[verifier::type_invariant]
    closed spec fn in_lowest_terms(self) -> bool {
        self.den > 0 && lowest(self.num as int, self.den as int)
    }

    /// The numerator.
    pub closed spec fn num(self) -> int {
        self.num as int
    }

    /// The denominator.
    pub closed spec fn den(self) -> int {
        self.den as int
    }

    /// What every number that executable code holds satisfies: it is in
    /// lowest terms and its denominator is positive.
    pub open spec fn valid(self) -> bool {
        self.den() > 0 && lowest(self.num(), self.den())
    }

    /// The number that stands for `n / d`: its lowest terms, if they fit.
    pub closed spec fn fraction(n: int, d: int) -> Option<Number> {
        if representable(n, d) {
            Some(Number { num: lowest_num(n, d) as i64, den: lowest_den(n, d) as i64 })
        } else {
            None
        }
    }

    /// The whole number `i`.
    pub open spec fn integer(i: int) -> Option<Number> {
        Number::fraction(i, 1)
    }

    /// The number that the decimal literal `whole.frac` writes: its digits
    /// read as one integer, over ten to the number of fraction digits. There
    /// is none where a character is no digit, or where that integer or that
    /// power of ten leaves the 64-bit range.
    pub open spec fn decimal(whole: Seq<char>, frac: Seq<char>) -> Option<Number> {
        if all_digits(whole + frac) && digits_value(whole + frac) <= i64::MAX && pow10(frac.len())
            <= i64::MAX {
            Number::fraction(digits_value(whole + frac) as int, pow10(frac.len()) as int)
        } else {
            None
        }
    }

    /// Ten to the power that the digits `exponent` write, where that power
    /// fits the 64-bit range.
    pub open spec fn power_of_ten(exponent: Seq<char>) -> Option<Number> {
        if all_digits(exponent) && pow10(digits_value(exponent)) <= i64::MAX {
            Number::integer(pow10(digits_value(exponent)) as int)
        } else {
            None
        }
    }

    /// The number that the text `s` writes in scientific notation: the
    /// decimal `whole.frac`, times or over the power of ten, with the sign.
    /// There is none where `s` is no such text, or where one of these steps
    /// has no representable result.
    pub open spec fn scientific(s: Seq<char>) -> Option<Number> {
        let parts = notation(s);
        if !parts.complete {
            None
        } else {
            match (Number::decimal(parts.whole, parts.frac), Number::power_of_ten(parts.exponent)) {
                (Some(q), Some(p)) => {
                    let scaled = if parts.shrinking {
                        q.quotient(p)
                    } else {
                        q.product(p)
                    };
                    match scaled {
                        Some(v) => if parts.negative {
                            v.negated()
                        } else {
                            Some(v)
                        },
                        None => None,
                    }
                },
                _ => None,
            }
        }
    }

    /// Exact opposite.
    pub open spec fn negated(self) -> Option<Number> {
        Number::fraction(-self.num(), self.den())
    }

    /// Exact sum.
    pub open spec fn sum(self, other: Number) -> Option<Number> {
        Number::fraction(
            self.num() * other.den() + other.num() * self.den(),
            self.den() * other.den(),
        )
    }

    /// Exact difference.
    pub open spec fn difference(self, other: Number) -> Option<Number> {
        Number::fraction(
            self.num() * other.den() - other.num() * self.den(),
            self.den() * other.den(),
        )
    }

    /// Exact product.
    pub open spec fn product(self, other: Number) -> Option<Number> {
        Number::fraction(self.num() * other.num(), self.den() * other.den())
    }

    /// Exact quotient; there is none for a zero divisor.
    pub open spec fn quotient(self, other: Number) -> Option<Number> {
        Number::fraction(self.num() * other.den(), self.den() * other.num())
    }

    /// Whether `self` is zero.
    pub open spec fn is_zero(self) -> bool {
        self.num() == 0
    }

    /// `self < other` as fractions.
    pub open spec fn less(self, other: Number) -> bool {
        self.num() * other.den() < other.num() * self.den()
    }

    /// `self == other` as fractions.
    pub open spec fn same(self, other: Number) -> bool {
        self.num() * other.den() == other.num() * self.den()
    }

    /// Two numbers with the same numerator and denominator are one number.
    pub proof fn lemma_extensional(a: Number, b: Number)
        requires
            a.num() == b.num(),
            a.den() == b.den(),
        ensures
            a == b,
    {
    }

    /// Numbers are equal in value exactly when they are the same number,
    /// since each is held in lowest terms.
    pub proof fn lemma_same_is_equal(a: Number, b: Number)
        requires
            a.valid(),
            b.valid(),
        ensures
            a.same(b) <==> a == b,
    {
        if a.same(b) {
            assert(b.num() * a.den() == a.den() * b.num()) by (nonlinear_arith);
            lemma_lowest_terms_unique(a.num(), a.den(), b.num(), b.den());
            Number::lemma_extensional(a, b);
        }
    }

    /// What `fraction` yields: the lowest terms of `n / d` exactly when they
    /// are representable, and then a number of the same value as `n / d`.
    pub proof fn lemma_fraction(n: int, d: int)
        ensures
            Number::fraction(n, d) is Some <==> representable(n, d),
            Number::fraction(n, d) matches Some(q) ==> {
                &&& q.valid()
                &&& q.num() == lowest_num(n, d)
                &&& q.den() == lowest_den(n, d)
                &&& q.num() * d == n * q.den()
            },
    {
        if d != 0 {
            lemma_lowest_terms(n, d);
        }
    }

    /// The numerator.
    pub fn numerator(&self) -> (n: i64)
        ensures
            n == self.num(),
    {
        self.num
    }

    /// The denominator.
    pub fn denominator(&self) -> (d: i64)
        ensures
            d == self.den(),
            d > 0,
    {
        proof {
            use_type_invariant(self);
        }
        self.den
    }

    /// The number `num / den` in lowest terms; `None` where `den` is zero or
    /// the lowest terms do not fit.
    pub fn new(num: i64, den: i64) -> (r: Option<Number>)
        ensures
            r == Number::fraction(num as int, den as int),
    {
        if den == 0 {
            return None;
        }
        signed_fraction(num as i128, den as i128)
    }

    /// The whole number `value`.
    pub fn from_integer(value: i64) -> (r: Number)
        ensures
            Number::integer(value as int) == Some(r),
            r.num() == value,
            r.den() == 1,
    {
        proof {
            let m = magnitude(value as int);
            assert(m % 1 == 0);
            assert(gcd(1, 0) == 1);
            assert(gcd(m, 1) == gcd(1, m % 1));
            assert(m / 1 == m);
            assert(magnitude(1) == 1);
            assert(1nat / 1nat == 1);
            assert(lowest_num(value as int, 1) == value);
            assert(lowest_den(value as int, 1) == 1);
        }
        Number { num: value, den: 1 }
    }

    /// `self + other`, exactly.
    pub fn plus(&self, other: &Number) -> (r: Option<Number>)
        ensures
            r == self.sum(*other),
    {
        proof {
            use_type_invariant(self);
            use_type_invariant(other);
            lemma_scaled_bound(self.num as int, other.den as int);
            lemma_scaled_bound(other.num as int, self.den as int);
            lemma_product_bound(self.den as int, other.den as int);
        }
        let n: i128 = (self.num as i128) * (other.den as i128) + (other.num as i128) * (self.den as i128);
        let d: i128 = (self.den as i128) * (other.den as i128);
        proof {
            lemma_mul_strictly_positive(self.den as int, other.den as int);
        }
        signed_fraction(n, d)
    }

    /// `self - other`, exactly.
    pub fn minus(&self, other: &Number) -> (r: Option<Number>)
        ensures
            r == self.difference(*other),
    {
        proof {
            use_type_invariant(self);
            use_type_invariant(other);
            lemma_scaled_bound(self.num as int, other.den as int);
            lemma_scaled_bound(other.num as int, self.den as int);
            lemma_product_bound(self.den as int, other.den as int);
        }
        let n: i128 = (self.num as i128) * (other.den as i128) - (other.num as i128) * (self.den as i128);
        let d: i128 = (self.den as i128) * (other.den as i128);
        proof {
            lemma_mul_strictly_positive(self.den as int, other.den as int);
        }
        signed_fraction(n, d)
    }

    /// `self * other`, exactly.
    pub fn times(&self, other: &Number) -> (r: Option<Number>)
        ensures
            r == self.product(*other),
    {
        proof {
            use_type_invariant(self);
            use_type_invariant(other);
            lemma_product_bound(self.num as int, other.num as int);
            lemma_product_bound(self.den as int, other.den as int);
        }
        let n: i128 = (self.num as i128) * (other.num as i128);
        let d: i128 = (self.den as i128) * (other.den as i128);
        proof {
            lemma_mul_strictly_positive(self.den as int, other.den as int);
        }
        signed_fraction(n, d)
    }

    /// `self / other`, exactly; `None` where `other` is zero.
    pub fn divided_by(&self, other: &Number) -> (r: Option<Number>)
        ensures
            r == self.quotient(*other),
            other.is_zero() ==> r is None,
    {
        proof {
            use_type_invariant(self);
            use_type_invariant(other);
            lemma_product_bound(self.num as int, other.den as int);
            lemma_product_bound(self.den as int, other.num as int);
        }
        let n: i128 = (self.num as i128) * (other.den as i128);
        let d: i128 = (self.den as i128) * (other.num as i128);
        if other.num == 0 {
            proof {
                assert(self.den() * other.num() == 0) by (nonlinear_arith)
                    requires
                        other.num() == 0,
                ;
            }
            return None;
        }
        proof {
            lemma_mul_nonzero(self.den as int, other.num as int);
        }
        signed_fraction(n, d)
    }

    /// Whether `self < other`.
    pub fn less_than(&self, other: &Number) -> (b: bool)
        ensures
            b == self.less(*other),
    {
        proof {
            lemma_product_bound(self.num as int, other.den as int);
            lemma_product_bound(other.num as int, self.den as int);
        }
        (self.num as i128) * (other.den as i128) < (other.num as i128) * (self.den as i128)
    }

    /// Whether `self` and `other` are the same fraction.
    pub fn equals(&self, other: &Number) -> (b: bool)
        ensures
            b == self.same(*other),
    {
        proof {
            lemma_product_bound(self.num as int, other.den as int);
            lemma_product_bound(other.num as int, self.den as int);
        }
        (self.num as i128) * (other.den as i128) == (other.num as i128) * (self.den as i128)
    }

    /// Reads the decimal literal `whole.frac`.
    pub fn from_decimal(whole: &Vec<char>, frac: &Vec<char>) -> (r: Option<Number>)
        ensures
            r == Number::decimal(whole@, frac@),
    {
        let ghost all = whole@ + frac@;
        let mut m: u64 = 0;
        let mut i: usize = 0;
        while i < whole.len()
            invariant
                i <= whole.len(),
                all == whole@ + frac@,
                all_digits(all.take(i as int)),
                m == digits_value(all.take(i as int)),
                m <= i64::MAX,
            decreases whole.len() - i,
        {
            match push_digit(m, whole[i]) {
                Some(next) => {
                    proof {
                        lemma_take_push(all, i as int);
                    }
                    m = next;
                },
                None => {
                    proof {
                        lemma_take_push(all, i as int);
                        if is_digit(all[i as int]) {
                            lemma_digits_value_grows(all, i + 1);
                        }
                    }
                    return None;
                },
            }
            i += 1;
        }
        let mut d: u64 = 1;
        let mut j: usize = 0;
        while j < frac.len()
            invariant
                j <= frac.len(),
                all == whole@ + frac@,
                all_digits(all.take(whole.len() + j)),
                m == digits_value(all.take(whole.len() + j)),
                m <= i64::MAX,
                d == pow10(j as nat),
                1 <= d <= i64::MAX,
            decreases frac.len() - j,
        {
            let ghost k = whole.len() + j;
            if d > 922_337_203_685_477_580 {
                proof {
                    lemma_pow10_grows((j + 1) as nat, frac.len() as nat);
                }
                return None;
            }
            match push_digit(m, frac[j]) {
                Some(next) => {
                    proof {
                        lemma_take_push(all, k);
                    }
                    m = next;
                },
                None => {
                    proof {
                        lemma_take_push(all, k);
                        if is_digit(all[k]) {
                            lemma_digits_value_grows(all, k + 1);
                        }
                    }
                    return None;
                },
            }
            d = d * 10;
            j += 1;
        }
        proof {
            assert(all.take(whole.len() + frac.len()) == all);
        }
        reduce(false, m as u128, d as u128)
    }

    /// `-self`, exactly.
    pub fn negate(&self) -> (r: Option<Number>)
        ensures
            r == self.negated(),
    {
        proof {
            use_type_invariant(self);
        }
        signed_fraction(-(self.num as i128), self.den as i128)
    }

    /// Reads a number in scientific notation, such as `8`, `-2.5` or `1e-7`.
    pub fn from_scientific(text: &str) -> (r: Option<Number>)
        ensures
            r == Number::scientific(text@),
    {
        let chars = chars_of(text);
        let ghost s = chars@;
        let n = chars.len();
        let negative = n > 0 && chars[0] == '-';
        let a: usize = if negative {
            1
        } else {
            0
        };
        let b = digits_until(&chars, a);
        let dotted = b < n && chars[b] == '.';
        let c = if dotted {
            digits_until(&chars, b + 1)
        } else {
            b
        };
        let powered = c < n && (chars[c] == 'e' || chars[c] == 'E');
        let signed = powered && c + 1 < n && (chars[c + 1] == '-' || chars[c + 1] == '+');
        let d: usize = if signed {
            c + 2
        } else if powered {
            c + 1
        } else {
            c
        };
        let e = digits_until(&chars, d);
        if !(a < b && (!dotted || b + 1 < c) && (!powered || d < e) && e == n) {
            return None;
        }
        let whole = slice_of(&chars, a, b);
        let frac = if dotted {
            slice_of(&chars, b + 1, c)
        } else {
            Vec::new()
        };
        let exponent = slice_of(&chars, d, e);
        let shrinking = signed && chars[c + 1] == '-';
        let q = match Number::from_decimal(&whole, &frac) {
            Some(q) => q,
            None => { return None; },
        };
        let p = match power_of(&exponent) {
            Some(p) => p,
            None => { return None; },
        };
        let scaled = if shrinking {
            q.divided_by(&p)
        } else {
            q.times(&p)
        };
        match scaled {
            Some(v) => if negative {
                v.negate()
            } else {
                Some(v)
            },
            None => None,
        }
    }
}

/// The end of the run of decimal digits that starts at `from`.
fn digits_until(chars: &Vec<char>, from: usize) -> (end: usize)
    requires
        from <= chars.len(),
    ensures
        end == digits_end(chars@, from as int),
        from <= end <= chars.len(),
{
    let mut i: usize = from;
    while i < chars.len() && chars[i] >= '0' && chars[i] <= '9'
        invariant
            from <= i <= chars.len(),
            digits_end(chars@, i as int) == digits_end(chars@, from as int),
        decreases chars.len() - i,
    {
        i += 1;
    }
    i
}

/// Ten to the power 19 is the first power of ten beyond the 64-bit range.
proof fn lemma_pow10_limit(k: nat)
    ensures
        k <= 18 ==> pow10(k) <= 1_000_000_000_000_000_000,
        k >= 19 ==> pow10(k) > i64::MAX,
{
    reveal_with_fuel(pow10, 20);
    assert(pow10(18) == 1_000_000_000_000_000_000);
    assert(pow10(19) == 10_000_000_000_000_000_000);
    if k <= 18 {
        lemma_pow10_grows(k, 18);
    } else {
        lemma_pow10_grows(19, k);
    }
}

/// Ten to the power that the digits `exponent` write.
fn power_of(exponent: &Vec<char>) -> (r: Option<Number>)
    ensures
        r == Number::power_of_ten(exponent@),
{
    let ghost all = exponent@;
    let mut k: u64 = 0;
    let mut i: usize = 0;
    while i < exponent.len()
        invariant
            i <= exponent.len(),
            all == exponent@,
            all_digits(all.take(i as int)),
            k == digits_value(all.take(i as int)),
            k <= 18,
        decreases exponent.len() - i,
    {
        proof {
            lemma_take_push(all, i as int);
            if is_digit(all[i as int]) {
                lemma_digits_value_grows(all, i + 1);
                lemma_pow10_limit(digits_value(all));
            }
        }
        match push_digit(k, exponent[i]) {
            Some(next) => {
                if next > 18 {
                    return None;
                }
                k = next;
            },
            None => {
                return None;
            },
        }
        i += 1;
    }
    proof {
        assert(all.take(exponent.len() as int) == all);
        lemma_pow10_limit(k as nat);
    }
    let mut p: i64 = 1;
    let mut j: u64 = 0;
    while j < k
        invariant
            j <= k <= 18,
            p == pow10(j as nat),
            p <= 1_000_000_000_000_000_000,
        decreases k - j,
    {
        proof {
            lemma_pow10_limit((j + 1) as nat);
        }
        p = p * 10;
        j += 1;
    }
    Some(Number::from_integer(p))
}

/// `take(k + 1)` is `take(k)` with the element at `k` pushed.
proof fn lemma_take_push(s: Seq<char>, k: int)
    requires
        0 <= k < s.len(),
    ensures
        s.take(k + 1) == s.take(k).push(s[k]),
        s.take(k + 1).drop_last() == s.take(k),
        s.take(k + 1).last() == s[k],
        all_digits(s.take(k)) && is_digit(s[k]) ==> all_digits(s.take(k + 1)),
        !is_digit(s[k]) ==> !all_digits(s),
{
    assert(s.take(k + 1) == s.take(k).push(s[k]));
    assert(s.take(k + 1).drop_last() == s.take(k));
    if all_digits(s.take(k)) && is_digit(s[k]) {
        assert forall|i: int| 0 <= i < s.take(k + 1).len() implies is_digit(
            #[trigger] s.take(k + 1)[i],
        ) by {
            if i < k {
                assert(s.take(k + 1)[i] == s.take(k)[i]);
            }
        }
    }
}

/// `m * 10 + c` for the digit `c`, while it stays a positive 64-bit integer.
fn push_digit(m: u64, c: char) -> (r: Option<u64>)
    requires
        m <= i64::MAX,
    ensures
        r matches Some(v) ==> is_digit(c) && v == m * 10 + digit_value(c) && v <= i64::MAX,
        r is None ==> !is_digit(c) || m * 10 + digit_value(c) > i64::MAX,
{
    if c < '0' || c > '9' {
        return None;
    }
    let digit: u64 = (c as u32 - '0' as u32) as u64;
    if m > (0x7fff_ffff_ffff_ffff - digit) / 10 {
        return None;
    }
    Some(m * 10 + digit)
}

/// The product of two 64-bit integers stays within 126 bits.
proof fn lemma_product_bound(x: int, y: int)
    requires
        i64::MIN <= x <= i64::MAX,
        i64::MIN <= y <= i64::MAX,
    ensures
        -0x4000_0000_0000_0000_0000_0000_0000_0000 <= x * y <= 0x4000_0000_0000_0000_0000_0000_0000_0000,
{
    assert(-0x4000_0000_0000_0000_0000_0000_0000_0000 <= x * y
        <= 0x4000_0000_0000_0000_0000_0000_0000_0000) by (nonlinear_arith)
        requires
            -0x8000_0000_0000_0000 <= x <= 0x8000_0000_0000_0000,
            -0x8000_0000_0000_0000 <= y <= 0x8000_0000_0000_0000,
    ;
}

/// A 64-bit integer times a denominator stays clear of the 126-bit bounds.
proof fn lemma_scaled_bound(x: int, d: int)
    requires
        i64::MIN <= x <= i64::MAX,
        0 < d <= i64::MAX,
    ensures
        -0x3fff_ffff_ffff_ffff_8000_0000_0000_0000 <= x * d <= 0x3fff_ffff_ffff_ffff_8000_0000_0000_0000,
{
    assert(-0x3fff_ffff_ffff_ffff_8000_0000_0000_0000 <= x * d
        <= 0x3fff_ffff_ffff_ffff_8000_0000_0000_0000) by (nonlinear_arith)
        requires
            -0x8000_0000_0000_0000 <= x <= 0x8000_0000_0000_0000,
            0 < d <= 0x7fff_ffff_ffff_ffff,
    ;
}

/// The fraction `n / d` for 128-bit `n` and `d`.
fn signed_fraction(n: i128, d: i128) -> (r: Option<Number>)
    requires
        d != 0,
        n > i128::MIN,
        d > i128::MIN,
    ensures
        r == Number::fraction(n as int, d as int),
{
    let negative = (n < 0) != (d < 0);
    let a: u128 = magnitude_of(n);
    let b: u128 = magnitude_of(d);
    proof {
        let sn: int = if negative {
            -(a as int)
        } else {
            a as int
        };
        lemma_gcd_positive(a as nat, b as nat);
        if n == 0 {
            lemma_div_basics_1(gcd(a as nat, b as nat) as int);
        }
        assert(magnitude(sn) == magnitude(n as int));
        assert(lowest_den(sn, b as int) == lowest_den(n as int, d as int));
        assert(lowest_num(sn, b as int) == lowest_num(n as int, d as int));
    }
    reduce(negative, a, b)
}

/// Absolute value of a 128-bit integer other than the least one.
fn magnitude_of(n: i128) -> (m: u128)
    requires
        n > i128::MIN,
    ensures
        m == magnitude(n as int),
{
    if n < 0 {
        (-n) as u128
    } else {
        n as u128
    }
}

/// Euclid's algorithm.
fn gcd_of(a: u128, b: u128) -> (g: u128)
    ensures
        g == gcd(a as nat, b as nat),
{
    let mut x: u128 = a;
    let mut y: u128 = b;
    while y != 0
        invariant
            gcd(x as nat, y as nat) == gcd(a as nat, b as nat),
        decreases y,
    {
        let r: u128 = x % y;
        x = y;
        y = r;
    }
    x
}

/// The fraction `±n / d` (negative where `negative` is set and `n != 0`).
fn reduce(negative: bool, n: u128, d: u128) -> (r: Option<Number>)
    requires
        d > 0,
    ensures
        r == Number::fraction(
            if negative {
                -(n as int)
            } else {
                n as int
            },
            d as int,
        ),
{
    let g: u128 = gcd_of(n, d);
    proof {
        lemma_gcd_positive(n as nat, d as nat);
    }
    let qn: u128 = n / g;
    let qd: u128 = d / g;
    let ghost sn: int = if negative {
        -(n as int)
    } else {
        n as int
    };
    proof {
        lemma_lowest_terms(sn, d as int);
        assert(magnitude(sn) == n);
        assert(magnitude(d as int) == d);
        assert(lowest_den(sn, d as int) == qd);
        assert(sn < 0 ==> lowest_num(sn, d as int) == -(qn as int));
        assert(sn >= 0 ==> lowest_num(sn, d as int) == qn as int);
        if n == 0 {
            assert(qn == 0) by {
                lemma_div_basics_1(g as int);
            }
        }
    }
    if qd > 0x7fff_ffff_ffff_ffff {
        return None;
    }
    if negative && n != 0 {
        if qn > 0x8000_0000_0000_0000 {
            return None;
        }
        let m: i128 = -(qn as i128);
        Some(Number { num: m as i64, den: qd as i64 })
    } else {
        if qn > 0x7fff_ffff_ffff_ffff {
            return None;
        }
        Some(Number { num: qn as i64, den: qd as i64 })
    }
}

} // verus!
