//! Exact rational numbers.
//!
//! Every numeric literal of the expression language denotes a rational
//! value, kept as a fraction of two machine integers in lowest terms.
//! All arithmetic is exact; an operation whose reduced result does not
//! fit the machine range reports `None` instead of wrapping.
use vstd::prelude::*;

verus! {

use vstd::arithmetic::div_mod::lemma_fundamental_div_mod;
use vstd::arithmetic::div_mod::lemma_mod_self_0;
use vstd::arithmetic::div_mod::lemma_small_mod;
use vstd::arithmetic::div_mod::lemma_mod_multiples_basic;

/// A rational number `num / den`, with `den >= 1` and the fraction in
/// lowest terms whenever it was produced by `rat_make`.
#[derive(Clone, Copy, Debug, PartialEq, Eq, Structural)]
pub struct Rat {
    pub num: i64,
    pub den: i64,
}

/// Absolute value of a mathematical integer.
pub open spec fn abs_int(n: int) -> int {
    if n < 0 {
        -n
    } else {
        n
    }
}

/// Greatest common divisor, by Euclid's recursion.
pub open spec fn gcd(a: nat, b: nat) -> nat
    decreases b,
{
    if b == 0 {
        a
    } else {
        gcd(b, a % b)
    }
}

/// `gcd(a, b)` divides both arguments and lies between 1 and `b`
/// whenever `b > 0`.
pub proof fn lemma_gcd_divides(a: nat, b: nat)
    requires
        a > 0 || b > 0,
    ensures
        gcd(a, b) >= 1,
        a as int % (gcd(a, b) as int) == 0,
        b as int % (gcd(a, b) as int) == 0,
        b > 0 ==> gcd(a, b) <= b,
    decreases b,
{
    let g = gcd(a, b);
    if b == 0 {
        assert(g == a);
        lemma_mod_self_0(a as int);
        lemma_small_mod(0, a);
    } else {
        let r = a % b;
        assert(g == gcd(b, r));
        lemma_gcd_divides(b, r);
        // g divides b and r; a == b * (a / b) + r, so g divides a.
        lemma_fundamental_div_mod(a as int, b as int);
        let q = a as int / b as int;
        let kb = b as int / g as int;
        let kr = r as int / g as int;
        lemma_fundamental_div_mod(b as int, g as int);
        lemma_fundamental_div_mod(r as int, g as int);
        assert(b as int == g as int * kb);
        assert(r as int == g as int * kr);
        let m = q * kb + kr;
        assert(a as int == g as int * m) by (nonlinear_arith)
            requires
                a as int == b as int * q + r as int,
                b as int == g as int * kb,
                r as int == g as int * kr,
                m == q * kb + kr,
        {}
        lemma_mod_multiples_basic(m, g as int);
        assert(a as int % (g as int) == 0);
        // 1 <= g <= b, since g divides b > 0.
        assert(g <= b) by (nonlinear_arith)
            requires
                b as int == g as int * kb,
                b > 0,
                g >= 1,
        {}
    }
}

impl Rat {
    /// Well-formedness: a positive denominator, and a numerator whose
    /// negation still fits the machine range.
    pub open spec fn inv(self) -> bool {
        &&& self.den >= 1
        &&& self.num > i64::MIN
    }

    /// The value is exactly zero.
    pub open spec fn is_zero_s(self) -> bool {
        self.num == 0
    }

    /// The value is exactly one.
    pub open spec fn is_one_s(self) -> bool {
        self.num == self.den
    }
}

/// The canonical machine rational for the fraction `n / d`: the sign is
/// moved to the numerator, the fraction is reduced by the greatest
/// common divisor, and `None` results when `d` is zero or the reduced
/// parts exceed the machine range.
pub open spec fn rat_make(n: int, d: int) -> Option<Rat> {
    if d == 0 {
        None
    } else {
        let n1 = if d < 0 {
            -n
        } else {
            n
        };
        let d1 = if d < 0 {
            -d
        } else {
            d
        };
        let a = abs_int(n1);
        let g = gcd(a as nat, d1 as nat) as int;
        let a2 = a / g;
        let d2 = d1 / g;
        if a2 <= i64::MAX && d2 <= i64::MAX {
            Some(
                Rat {
                    num: (if n1 < 0 {
                        -a2
                    } else {
                        a2
                    }) as i64,
                    den: d2 as i64,
                },
            )
        } else {
            None
        }
    }
}

/// The sum `a + b` as a canonical machine rational.
pub open spec fn rat_add_s(a: Rat, b: Rat) -> Option<Rat> {
    rat_make(a.num * b.den + b.num * a.den, a.den * b.den)
}

/// The difference `a - b` as a canonical machine rational.
pub open spec fn rat_sub_s(a: Rat, b: Rat) -> Option<Rat> {
    rat_make(a.num * b.den - b.num * a.den, a.den * b.den)
}

/// The product `a * b` as a canonical machine rational.
pub open spec fn rat_mul_s(a: Rat, b: Rat) -> Option<Rat> {
    rat_make(a.num * b.num, a.den * b.den)
}

/// The quotient `a / b` as a canonical machine rational; `None` when
/// `b` is zero.
pub open spec fn rat_div_s(a: Rat, b: Rat) -> Option<Rat> {
    if b.num == 0 {
        None
    } else {
        rat_make(a.num * b.den, a.den * b.num)
    }
}

/// The negation `-a`.
pub open spec fn rat_neg_s(a: Rat) -> Rat {
    Rat { num: -a.num as i64, den: a.den }
}

/// `a < b` on rational values, by cross multiplication.
pub open spec fn rat_lt_s(a: Rat, b: Rat) -> bool {
    a.num * b.den < b.num * a.den
}

/// The product of two values in the `i64` range stays well inside the
/// `i128` range.
proof fn lemma_mul_i64_fits(x: int, y: int)
    requires
        -0x7fff_ffff_ffff_ffff <= x <= 0x7fff_ffff_ffff_ffff,
        -0x7fff_ffff_ffff_ffff <= y <= 0x7fff_ffff_ffff_ffff,
    ensures
        -0x3fff_ffff_ffff_ffff_0000_0000_0000_0001 <= x * y
            <= 0x3fff_ffff_ffff_ffff_0000_0000_0000_0001,
        x >= 1 && y >= 1 ==> x * y >= 1,
        x >= 1 && y != 0 ==> x * y != 0,
{
    assert(-0x3fff_ffff_ffff_ffff_0000_0000_0000_0001 <= x * y
        <= 0x3fff_ffff_ffff_ffff_0000_0000_0000_0001 && (x >= 1 && y >= 1 ==> x * y >= 1) && (x
        >= 1 && y != 0 ==> x * y != 0)) by (nonlinear_arith)
        requires
            -0x7fff_ffff_ffff_ffff <= x <= 0x7fff_ffff_ffff_ffff,
            -0x7fff_ffff_ffff_ffff <= y <= 0x7fff_ffff_ffff_ffff,
    {}
}

/// Greatest common divisor of two machine integers.
fn gcd_u128(a0: u128, b0: u128) -> (g: u128)
    ensures
        g as nat == gcd(a0 as nat, b0 as nat),
{
    let mut a = a0;
    let mut b = b0;
    while b != 0
        invariant
            gcd(a as nat, b as nat) == gcd(a0 as nat, b0 as nat),
        decreases b,
    {
        let r = a % b;
        a = b;
        b = r;
    }
    a
}

/// Builds the canonical machine rational `n / d`, exactly as
/// `rat_make` describes.
fn rat_from_i128(n: i128, d: i128) -> (r: Option<Rat>)
    requires
        d != 0,
        n > i128::MIN,
        d > i128::MIN,
    ensures
        r == rat_make(n as int, d as int),
        r matches Some(v) ==> v.inv(),
{
    let n1: i128 = if d < 0 {
        -n
    } else {
        n
    };
    let d1: i128 = if d < 0 {
        -d
    } else {
        d
    };
    let a_mag: u128 = if n1 < 0 {
        (-n1) as u128
    } else {
        n1 as u128
    };
    let du: u128 = d1 as u128;
    proof {
        lemma_gcd_divides(a_mag as nat, du as nat);
    }
    let g = gcd_u128(a_mag, du);
    let a2 = a_mag / g;
    let d2 = du / g;
    proof {
        lemma_fundamental_div_mod(du as int, g as int);
        assert(d2 >= 1) by (nonlinear_arith)
            requires
                du as int == g as int * (du as int / g as int),
                d2 == du as int / g as int,
                du >= 1,
                g >= 1,
        {}
    }
    if a2 <= i64::MAX as u128 && d2 <= i64::MAX as u128 {
        let num_abs = a2 as i64;
        let den = d2 as i64;
        let num = if n1 < 0 {
            -num_abs
        } else {
            num_abs
        };
        Some(Rat { num, den })
    } else {
        None
    }
}

impl Rat {
    /// The rational `num / den` in canonical form; `None` when `den`
    /// is zero or the reduced fraction does not fit the machine range.
    pub fn new(num: i64, den: i64) -> (r: Option<Rat>)
        ensures
            r == rat_make(num as int, den as int),
            r matches Some(v) ==> v.inv(),
    {
        if den == 0 {
            None
        } else {
            rat_from_i128(num as i128, den as i128)
        }
    }

    /// The integer `n` as a rational.
    pub fn from_int(n: i64) -> (r: Rat)
        requires
            n > i64::MIN,
        ensures
            r.num == n,
            r.den == 1,
            r.inv(),
    {
        Rat { num: n, den: 1 }
    }

    /// True exactly when the value is zero.
    pub fn is_zero(&self) -> (r: bool)
        ensures
            r == self.is_zero_s(),
    {
        self.num == 0
    }

    /// True exactly when the value is one.
    pub fn is_one(&self) -> (r: bool)
        ensures
            r == self.is_one_s(),
    {
        self.num == self.den
    }

    /// Exact sum.
    pub fn add(self, other: Rat) -> (r: Option<Rat>)
        requires
            self.inv(),
            other.inv(),
        ensures
            r == rat_add_s(self, other),
            r matches Some(v) ==> v.inv(),
            r matches Some(v) ==> v.num * (self.den * other.den) == (self.num * other.den
                + other.num * self.den) * v.den,
    {
        proof {
            lemma_mul_i64_fits(self.num as int, other.den as int);
            lemma_mul_i64_fits(other.num as int, self.den as int);
            lemma_mul_i64_fits(self.den as int, other.den as int);
        }
        let n = (self.num as i128) * (other.den as i128) + (other.num as i128) * (self.den
            as i128);
        let d = (self.den as i128) * (other.den as i128);
        let r = rat_from_i128(n, d);
        proof {
            if r is Some {
                lemma_rat_make_value(n as int, d as int);
            }
        }
        r
    }

    /// Exact difference.
    pub fn sub(self, other: Rat) -> (r: Option<Rat>)
        requires
            self.inv(),
            other.inv(),
        ensures
            r == rat_sub_s(self, other),
            r matches Some(v) ==> v.inv(),
            r matches Some(v) ==> v.num * (self.den * other.den) == (self.num * other.den
                - other.num * self.den) * v.den,
    {
        proof {
            lemma_mul_i64_fits(self.num as int, other.den as int);
            lemma_mul_i64_fits(other.num as int, self.den as int);
            lemma_mul_i64_fits(self.den as int, other.den as int);
        }
        let n = (self.num as i128) * (other.den as i128) - (other.num as i128) * (self.den
            as i128);
        let d = (self.den as i128) * (other.den as i128);
        let r = rat_from_i128(n, d);
        proof {
            if r is Some {
                lemma_rat_make_value(n as int, d as int);
            }
        }
        r
    }

    /// Exact product.
    pub fn mul(self, other: Rat) -> (r: Option<Rat>)
        requires
            self.inv(),
            other.inv(),
        ensures
            r == rat_mul_s(self, other),
            r matches Some(v) ==> v.inv(),
            r matches Some(v) ==> v.num * (self.den * other.den) == (self.num * other.num) * v.den,
    {
        proof {
            lemma_mul_i64_fits(self.num as int, other.num as int);
            lemma_mul_i64_fits(self.den as int, other.den as int);
        }
        let n = (self.num as i128) * (other.num as i128);
        let d = (self.den as i128) * (other.den as i128);
        let r = rat_from_i128(n, d);
        proof {
            if r is Some {
                lemma_rat_make_value(n as int, d as int);
            }
        }
        r
    }

    /// Exact quotient; `None` when `other` is zero.
    pub fn div(self, other: Rat) -> (r: Option<Rat>)
        requires
            self.inv(),
            other.inv(),
        ensures
            r == rat_div_s(self, other),
            r matches Some(v) ==> v.inv(),
            r matches Some(v) ==> v.num * (self.den * other.num) == (self.num * other.den) * v.den,
    {
        if other.num == 0 {
            None
        } else {
            proof {
                lemma_mul_i64_fits(self.num as int, other.den as int);
                lemma_mul_i64_fits(self.den as int, other.num as int);
            }
            let n = (self.num as i128) * (other.den as i128);
            let d = (self.den as i128) * (other.num as i128);
            let r = rat_from_i128(n, d);
            proof {
                if r is Some {
                    lemma_rat_make_value(n as int, d as int);
                }
            }
            r
        }
    }

    /// Exact negation.
    pub fn neg(self) -> (r: Rat)
        requires
            self.inv(),
        ensures
            r == rat_neg_s(self),
            r.inv(),
    {
        Rat { num: -self.num, den: self.den }
    }

    /// Strict order on values, by cross multiplication.
    pub fn lt(self, other: Rat) -> (r: bool)
        requires
            self.inv(),
            other.inv(),
        ensures
            r == rat_lt_s(self, other),
    {
        proof {
            lemma_mul_i64_fits(self.num as int, other.den as int);
            lemma_mul_i64_fits(other.num as int, self.den as int);
        }
        (self.num as i128) * (other.den as i128) < (other.num as i128) * (self.den as i128)
    }
}

use vstd::arithmetic::power::pow;
use vstd::arithmetic::power::lemma_pow_increases;
use vstd::arithmetic::power::lemma_pow_positive;
use vstd::arithmetic::power::lemma1_pow;
use vstd::arithmetic::power::lemma0_pow;

/// Definitional unfolding of `pow` for a positive exponent.
proof fn lemma_pow_unfold(b: int, e: nat)
    requires
        e >= 1,
    ensures
        pow(b, e) == b * pow(b, (e - 1) as nat),
{
    reveal(pow);
}

/// `pow(b, k)` carries the sign of `b` when `k` is odd and is the
/// power of the magnitude otherwise.
pub proof fn lemma_pow_signs(b: int, k: nat)
    ensures
        pow(b, k) == if b < 0 && k % 2 == 1 {
            -pow(abs_int(b), k)
        } else {
            pow(abs_int(b), k)
        },
    decreases k,
{
    vstd::arithmetic::power::lemma_pow0(b);
    vstd::arithmetic::power::lemma_pow0(abs_int(b));
    if k > 0 {
        lemma_pow_signs(b, (k - 1) as nat);
        let prev = pow(b, (k - 1) as nat);
        let prevm = pow(abs_int(b), (k - 1) as nat);
        lemma_pow_unfold(b, k);
        lemma_pow_unfold(abs_int(b), k);
        assert(pow(b, k) == b * prev);
        assert(pow(abs_int(b), k) == abs_int(b) * prevm);
        if b < 0 {
            if k % 2 == 1 {
                assert((k - 1) as nat % 2 == 0);
                assert(prev == prevm);
                assert(b * prevm == -(abs_int(b) * prevm)) by (nonlinear_arith)
                    requires
                        b < 0,
                        abs_int(b) == -b,
                {}
            } else {
                assert((k - 1) as nat % 2 == 1);
                assert(prev == -prevm);
                assert(b * (-prevm) == abs_int(b) * prevm) by (nonlinear_arith)
                    requires
                        b < 0,
                        abs_int(b) == -b,
                {}
            }
        }
    }
}

/// The power of the magnitude of a base at least 2, or `None` when it
/// exceeds `i64::MAX`.
fn pow_mag(b: u64, k: u64) -> (r: Option<u64>)
    requires
        b >= 2,
    ensures
        match r {
            Some(v) => v as int == pow(b as int, k as nat) && v <= i64::MAX as u64,
            None => pow(b as int, k as nat) > i64::MAX as int,
        },
{
    let mut p: u64 = 1;
    let mut i: u64 = 0;
    proof {
        vstd::arithmetic::power::lemma_pow0(b as int);
    }
    while i < k
        invariant
            i <= k,
            b >= 2,
            p as int == pow(b as int, i as nat),
            p <= i64::MAX as u64,
        decreases k - i,
    {
        let lim = (i64::MAX as u64) / b;
        proof {
            lemma_fundamental_div_mod(i64::MAX as int, b as int);
        }
        if p > lim {
            proof {
                assert(p as int * b as int > i64::MAX as int) by (nonlinear_arith)
                    requires
                        p as int >= i64::MAX as int / b as int + 1,
                        i64::MAX as int == b as int * (i64::MAX as int / b as int) + i64::MAX
                            as int % b as int,
                        (i64::MAX as int % b as int) < b as int,
                        b >= 2,
                {}
                lemma_pow_unfold(b as int, (i + 1) as nat);
                assert(pow(b as int, (i + 1) as nat) == b as int * p as int);
                assert(pow(b as int, (i + 1) as nat) > i64::MAX as int);
                lemma_pow_increases(b as nat, (i + 1) as nat, k as nat);
                assert(pow(b as int, k as nat) >= pow(b as int, (i + 1) as nat));
            }
            return None;
        }
        proof {
            assert(p as int * b as int <= i64::MAX as int) by (nonlinear_arith)
                requires
                    p as int <= i64::MAX as int / b as int,
                    i64::MAX as int == b as int * (i64::MAX as int / b as int) + i64::MAX as int
                        % b as int,
                    0 <= i64::MAX as int % b as int,
                    b >= 2,
                    p >= 0,
            {}
            lemma_pow_unfold(b as int, (i + 1) as nat);
            assert(pow(b as int, (i + 1) as nat) == b as int * p as int);
        }
        p = p * b;
        i = i + 1;
    }
    Some(p)
}

/// The power of a nonnegative magnitude, or `None` when it exceeds
/// `i64::MAX`.
fn pow_mag_any(b: u64, k: u64) -> (r: Option<u64>)
    ensures
        match r {
            Some(v) => v as int == pow(b as int, k as nat) && v <= i64::MAX as u64,
            None => pow(b as int, k as nat) > i64::MAX as int,
        },
{
    if k == 0 {
        proof {
            vstd::arithmetic::power::lemma_pow0(b as int);
        }
        Some(1)
    } else if b == 0 {
        proof {
            lemma0_pow(k as nat);
        }
        Some(0)
    } else if b == 1 {
        proof {
            lemma1_pow(k as nat);
        }
        Some(1)
    } else {
        pow_mag(b, k)
    }
}

/// The machine rational for the ratio of two powers, when both parts
/// fit the machine range.
pub open spec fn pow_fit(n: int, d: int) -> Option<Rat> {
    if abs_int(n) <= i64::MAX && abs_int(d) <= i64::MAX {
        rat_make(n, d)
    } else {
        None
    }
}

/// The power `a ^ e`, defined only for integer exponents: for a
/// nonnegative exponent the parts are raised separately; for a
/// negative exponent the fraction is inverted first, which requires a
/// nonzero base. `None` otherwise, and whenever a raised part leaves
/// the machine range.
pub open spec fn rat_pow_s(a: Rat, e: Rat) -> Option<Rat> {
    if e.den != 1 {
        None
    } else if e.num >= 0 {
        pow_fit(pow(a.num as int, e.num as nat), pow(a.den as int, e.num as nat))
    } else if a.num == 0 {
        None
    } else {
        pow_fit(pow(a.den as int, abs_int(e.num as int) as nat), pow(a.num as int, abs_int(e.num as int) as nat))
    }
}

impl Rat {
    /// Exact power for integer exponents, as `rat_pow_s` describes.
    pub fn pow(self, other: Rat) -> (r: Option<Rat>)
        requires
            self.inv(),
            other.inv(),
        ensures
            r == rat_pow_s(self, other),
            r matches Some(v) ==> v.inv(),
    {
        if other.den != 1 {
            return None;
        }
        let k = other.num;
        let neg_exp = k < 0;
        if neg_exp && self.num == 0 {
            return None;
        }
        let m: u64 = if k == i64::MIN {
            9223372036854775808u64
        } else if k < 0 {
            (-k) as u64
        } else {
            k as u64
        };
        let num_neg = self.num < 0;
        let bn: u64 = if num_neg {
            (-self.num) as u64
        } else {
            self.num as u64
        };
        let bd: u64 = self.den as u64;
        proof {
            lemma_pow_signs(self.num as int, m as nat);
            lemma_pow_positive(self.den as int, m as nat);
            if self.num != 0 {
                lemma_pow_positive(bn as int, m as nat);
            }
        }
        let mn = match pow_mag_any(bn, m) {
            Some(v) => v,
            None => {
                return None;
            },
        };
        let md = match pow_mag_any(bd, m) {
            Some(v) => v,
            None => {
                return None;
            },
        };
        let sign_neg = num_neg && m % 2 == 1;
        let n_signed: i128 = if sign_neg {
            -(mn as i128)
        } else {
            mn as i128
        };
        if neg_exp {
            rat_from_i128(md as i128, n_signed)
        } else {
            rat_from_i128(n_signed, md as i128)
        }
    }
}

/// The byte is an ASCII decimal digit.
pub open spec fn is_digit_s(b: u8) -> bool {
    48 <= b && b <= 57
}

/// Every byte of the sequence is an ASCII decimal digit.
pub open spec fn all_digits(s: Seq<u8>) -> bool {
    forall|j: int| 0 <= j < s.len() ==> is_digit_s(#[trigger] s[j])
}

/// The integer denoted by a sequence of decimal digit bytes, most
/// significant first; the empty sequence denotes zero.
pub open spec fn digits_val(s: Seq<u8>) -> int
    decreases s.len(),
{
    if s.len() == 0 {
        0
    } else {
        digits_val(s.drop_last()) * 10 + (s.last() - 48)
    }
}

/// A digit string denotes a nonnegative value.
pub proof fn lemma_digits_val_nonneg(s: Seq<u8>)
    requires
        all_digits(s),
    ensures
        digits_val(s) >= 0,
    decreases s.len(),
{
    if s.len() > 0 {
        assert(all_digits(s.drop_last()));
        lemma_digits_val_nonneg(s.drop_last());
    }
}

/// Extending a digit string on the right cannot decrease its value.
pub proof fn lemma_digits_val_prefix(s: Seq<u8>, k: int)
    requires
        all_digits(s),
        0 <= k <= s.len(),
    ensures
        digits_val(s.subrange(0, k)) <= digits_val(s),
    decreases s.len() - k,
{
    if k == s.len() {
        assert(s.subrange(0, k) =~= s);
    } else {
        lemma_digits_val_prefix(s, k + 1);
        assert(s.subrange(0, k + 1).drop_last() =~= s.subrange(0, k));
        assert(all_digits(s.subrange(0, k)));
        lemma_digits_val_nonneg(s.subrange(0, k));
        assert(digits_val(s.subrange(0, k + 1)) == digits_val(s.subrange(0, k)) * 10 + (s[k]
            - 48));
    }
}

/// The index of the first occurrence of `b` at or after `i`, or the
/// length when there is none.
pub open spec fn find_byte_s(s: Seq<u8>, b: u8, i: int) -> int
    decreases s.len() - i,
{
    if i < 0 || i >= s.len() {
        s.len() as int
    } else if s[i] == b {
        i
    } else {
        find_byte_s(s, b, i + 1)
    }
}

/// The shape of a numeric lexeme: one or more digits, optionally
/// followed by a dot and one or more digits.
pub open spec fn wf_number_bytes(s: Seq<u8>) -> bool {
    let di = find_byte_s(s, 46, 0);
    &&& di >= 1
    &&& (di == s.len() || di + 2 <= s.len())
    &&& all_digits(s.subrange(0, di))
    &&& (di < s.len() ==> all_digits(s.subrange(di + 1, s.len() as int)))
}

/// The rational value of a numeric lexeme: the digits around the
/// first dot give `ipart + fpart / 10^k`, brought to canonical form;
/// `None` when an accumulated part exceeds the machine range.
pub open spec fn parse_decimal_s(s: Seq<u8>) -> Option<Rat> {
    let di = find_byte_s(s, 46, 0);
    let ip = s.subrange(0, di);
    let fp = if di == s.len() {
        Seq::<u8>::empty()
    } else {
        s.subrange(di + 1, s.len() as int)
    };
    let d = pow(10, fp.len());
    let n = digits_val(ip) * d + digits_val(fp);
    if n > u128::MAX || d > u128::MAX {
        None
    } else {
        rat_make(n, d)
    }
}

/// Builds the canonical machine rational `n / d` for nonnegative
/// parts, exactly as `rat_make` describes.
fn rat_from_u128(n: u128, d: u128) -> (r: Option<Rat>)
    requires
        d >= 1,
    ensures
        r == rat_make(n as int, d as int),
        r matches Some(v) ==> v.inv(),
{
    proof {
        lemma_gcd_divides(n as nat, d as nat);
    }
    let g = gcd_u128(n, d);
    let a2 = n / g;
    let d2 = d / g;
    proof {
        lemma_fundamental_div_mod(d as int, g as int);
        assert(d2 >= 1) by (nonlinear_arith)
            requires
                d as int == g as int * (d as int / g as int),
                d2 == d as int / g as int,
                d >= 1,
                g >= 1,
        {}
    }
    if a2 <= i64::MAX as u128 && d2 <= i64::MAX as u128 {
        Some(Rat { num: a2 as i64, den: d2 as i64 })
    } else {
        None
    }
}

/// Parses a numeric lexeme into its exact rational value, as
/// `parse_decimal_s` describes.
pub fn rat_from_decimal(s: &[u8]) -> (r: Option<Rat>)
    requires
        wf_number_bytes(s@),
    ensures
        r == parse_decimal_s(s@),
        r matches Some(v) ==> v.inv(),
{
    let n = s.len();
    let mut di: usize = 0;
    while di < n && s[di] != 46
        invariant
            0 <= di <= n,
            n == s@.len(),
            find_byte_s(s@, 46, 0) == find_byte_s(s@, 46, di as int),
        decreases n - di,
    {
        di = di + 1;
    }
    let ghost ip = s@.subrange(0, di as int);
    let ghost fp = if di == n {
        Seq::<u8>::empty()
    } else {
        s@.subrange(di as int + 1, n as int)
    };
    proof {
        assert(find_byte_s(s@, 46, di as int) == di);
        lemma_digits_val_nonneg(ip);
        if di < n {
            lemma_digits_val_nonneg(fp);
        }
        lemma_pow_positive(10, fp.len());
    }
    // integer part
    let mut acc: u128 = 0;
    let mut j: usize = 0;
    while j < di
        invariant
            0 <= j <= di <= n,
            n == s@.len(),
            di as int == find_byte_s(s@, 46, 0),
            wf_number_bytes(s@),
            ip == s@.subrange(0, di as int),
            fp == (if di == n {
                Seq::<u8>::empty()
            } else {
                s@.subrange(di as int + 1, n as int)
            }),
            acc as int == digits_val(s@.subrange(0, j as int)),
        decreases di - j,
    {
        proof {
            assert(s@.subrange(0, j as int + 1).drop_last() =~= s@.subrange(0, j as int));
            assert(all_digits(ip));
            assert(ip[j as int] == s@[j as int]);
            assert(is_digit_s(s@[j as int]));
        }
        let dig = (s[j] - 48) as u128;
        let step = match acc.checked_mul(10) {
            Some(t) => t.checked_add(dig),
            None => None,
        };
        match step {
            Some(t) => {
                acc = t;
            },
            None => {
                proof {
                    assert(digits_val(s@.subrange(0, j as int + 1)) > u128::MAX);
                    assert(ip.subrange(0, j as int + 1) =~= s@.subrange(0, j as int + 1));
                    lemma_digits_val_prefix(ip, j as int + 1);
                    assert(digits_val(ip) > u128::MAX);
                    lemma_pow_positive(10, fp.len());
                    let d = pow(10, fp.len());
                    assert(digits_val(ip) * d >= digits_val(ip) * 1) by (nonlinear_arith)
                        requires
                            digits_val(ip) >= 0,
                            d >= 1,
                    {}
                    lemma_digits_val_nonneg(fp);
                }
                return None;
            },
        }
        j = j + 1;
    }
    proof {
        assert(s@.subrange(0, di as int) =~= ip);
    }
    // fractional part and its scale
    let mut den: u128 = 1;
    if di < n {
        let mut j2: usize = di + 1;
        proof {
            vstd::arithmetic::power::lemma_pow0(10);
            assert(s@.subrange(di as int + 1, di as int + 1) =~= Seq::<u8>::empty());
        }
        while j2 < n
            invariant
                di as int + 1 <= j2 as int <= n,
                n == s@.len(),
                di as int == find_byte_s(s@, 46, 0),
                wf_number_bytes(s@),
                di < n,
                ip == s@.subrange(0, di as int),
                fp == s@.subrange(di as int + 1, n as int),
                den as int == pow(10, (j2 - di - 1) as nat),
                acc as int == digits_val(ip) * den + digits_val(
                    s@.subrange(di as int + 1, j2 as int),
                ),
            decreases n - j2,
        {
            proof {
                assert(all_digits(fp));
                assert(fp[j2 - di - 1] == s@[j2 as int]);
                assert(is_digit_s(s@[j2 as int]));
                assert(s@.subrange(di as int + 1, j2 as int + 1).drop_last() =~= s@.subrange(
                    di as int + 1,
                    j2 as int,
                ));
                lemma_digits_val_nonneg(s@.subrange(di as int + 1, j2 as int));
            }
            let dig = (s[j2] - 48) as u128;
            let den_next = match den.checked_mul(10) {
                Some(t) => t,
                None => {
                    proof {
                        lemma_pow_unfold(10, (j2 - di) as nat);
                        lemma_pow_increases(10, (j2 - di) as nat, fp.len());
                        lemma_digits_val_nonneg(ip);
                        lemma_digits_val_nonneg(fp);
                        assert(digits_val(ip) * pow(10, fp.len()) >= 0) by (nonlinear_arith)
                            requires
                                digits_val(ip) >= 0,
                                pow(10, fp.len()) >= 1,
                        {}
                    }
                    return None;
                },
            };
            let step = match acc.checked_mul(10) {
                Some(t) => t.checked_add(dig),
                None => None,
            };
            match step {
                Some(t) => {
                    proof {
                        let cnt = (j2 - di - 1) as nat;
                        assert((digits_val(ip) * den as int + digits_val(
                            s@.subrange(di as int + 1, j2 as int),
                        )) * 10 == digits_val(ip) * (den as int * 10) + digits_val(
                            s@.subrange(di as int + 1, j2 as int),
                        ) * 10) by (nonlinear_arith)
                        {}
                        lemma_pow_unfold(10, (cnt + 1) as nat);
                    }
                    acc = t;
                    den = den_next;
                },
                None => {
                    proof {
                        // the final value is at least the overflowing accumulator
                        let cnt1 = (j2 - di) as int;
                        let pref = s@.subrange(di as int + 1, j2 as int + 1);
                        assert((digits_val(ip) * den as int + digits_val(
                            s@.subrange(di as int + 1, j2 as int),
                        )) * 10 == digits_val(ip) * (den as int * 10) + digits_val(
                            s@.subrange(di as int + 1, j2 as int),
                        ) * 10) by (nonlinear_arith)
                        {}
                        lemma_pow_unfold(10, cnt1 as nat);
                        assert(digits_val(ip) * pow(10, cnt1 as nat) + digits_val(pref)
                            > u128::MAX);
                        lemma_digits_val_prefix(fp, cnt1);
                        assert(fp.subrange(0, cnt1) =~= pref);
                        lemma_pow_increases(10, cnt1 as nat, fp.len());
                        lemma_digits_val_nonneg(ip);
                        lemma_digits_val_nonneg(fp);
                        assert(digits_val(ip) * pow(10, fp.len()) >= digits_val(ip) * pow(
                            10,
                            cnt1 as nat,
                        )) by (nonlinear_arith)
                            requires
                                digits_val(ip) >= 0,
                                pow(10, fp.len()) >= pow(10, cnt1 as nat),
                        {}
                    }
                    return None;
                },
            }
            j2 = j2 + 1;
        }
        proof {
            assert(s@.subrange(di as int + 1, n as int) =~= fp);
        }
    }
    proof {
        if di == n {
            vstd::arithmetic::power::lemma_pow0(10);
        }
    }
    rat_from_u128(acc, den)
}

/// The decimal digit bytes of a nonnegative integer, most significant
/// first.
pub open spec fn dec_digits_of(n: nat) -> Seq<u8>
    decreases n,
{
    if n < 10 {
        seq![(48 + n) as u8]
    } else {
        dec_digits_of(n / 10) + seq![(48 + n % 10) as u8]
    }
}

/// Appends the decimal digits of `n` to `out`.
pub fn push_dec_u64(out: &mut Vec<u8>, n: u64)
    ensures
        final(out)@ == old(out)@ + dec_digits_of(n as nat),
    decreases n,
{
    if n < 10 {
        out.push(48 + n as u8);
    } else {
        push_dec_u64(out, n / 10);
        out.push(48 + (n % 10) as u8);
        proof {
            assert(out@ =~= old(out)@ + dec_digits_of(n as nat));
        }
    }
}

/// The digits after the decimal point when `rem / den` has a finite
/// decimal expansion reachable within `fuel` long-division steps;
/// `None` otherwise.
pub open spec fn frac_digits_s(rem: nat, den: nat, fuel: nat) -> Option<Seq<u8>>
    decreases fuel,
{
    if rem == 0 {
        Some(Seq::<u8>::empty())
    } else if fuel == 0 {
        None
    } else {
        let r10 = rem * 10;
        let dig = r10 / den;
        match frac_digits_s(r10 % den, den, (fuel - 1) as nat) {
            None => None,
            Some(t) => Some(seq![(48 + dig) as u8] + t),
        }
    }
}

/// The decimal text of a rational value: an optional minus sign, the
/// integer part, and the fractional digits after a dot when the
/// expansion is finite. A value with no finite decimal expansion has
/// no decimal text.
pub open spec fn rat_decimal_s(a: Rat) -> Option<Seq<u8>> {
    let mag = abs_int(a.num as int) as nat;
    let ipart = mag / a.den as nat;
    let rem = mag % a.den as nat;
    match frac_digits_s(rem, a.den as nat, 64) {
        None => None,
        Some(ds) => Some(
            (if a.num < 0 {
                seq![45u8]
            } else {
                Seq::<u8>::empty()
            }) + dec_digits_of(ipart) + (if ds.len() == 0 {
                Seq::<u8>::empty()
            } else {
                seq![46u8] + ds
            }),
        ),
    }
}

impl Rat {
    /// The decimal text of the value, as `rat_decimal_s` describes;
    /// `None` when the expansion is not finite.
    pub fn decimal_bytes(&self) -> (r: Option<Vec<u8>>)
        requires
            self.inv(),
        ensures
            match rat_decimal_s(*self) {
                Some(ds) => r matches Some(v) && v@ == ds,
                None => r is None,
            },
    {
        let neg = self.num < 0;
        let mag: u64 = if neg {
            (-self.num) as u64
        } else {
            self.num as u64
        };
        let den: u64 = self.den as u64;
        let ipart: u64 = mag / den;
        let rem0: u64 = mag % den;
        // long division for the fractional digits
        let mut ds: Vec<u8> = Vec::new();
        let mut rem: u64 = rem0;
        let mut fuel: u64 = 64;
        while rem != 0 && fuel != 0
            invariant
                self.inv(),
                den == self.den as u64,
                rem < den,
                fuel <= 64,
                frac_digits_s(rem0 as nat, den as nat, 64) matches Some(t) ==> (
                frac_digits_s(rem as nat, den as nat, fuel as nat) matches Some(u) && t == ds@
                    + u),
                frac_digits_s(rem0 as nat, den as nat, 64) is None ==> frac_digits_s(
                    rem as nat,
                    den as nat,
                    fuel as nat,
                ) is None,
            decreases fuel,
        {
            let r10: u128 = (rem as u128) * 10;
            let dig: u64 = (r10 / (den as u128)) as u64;
            let rem_next: u64 = (r10 % (den as u128)) as u64;
            proof {
                lemma_fundamental_div_mod(r10 as int, den as int);
                assert((r10 as int / den as int) < 10) by (nonlinear_arith)
                    requires
                        r10 as int == rem as int * 10,
                        rem < den,
                        den >= 1,
                        r10 as int == den as int * (r10 as int / den as int) + (r10 as int
                            % den as int),
                        0 <= r10 as int % den as int,
                {}
                let b: u8 = (48 + dig) as u8;
                let cur = frac_digits_s(rem as nat, den as nat, fuel as nat);
                let nxt = frac_digits_s(rem_next as nat, den as nat, (fuel - 1) as nat);
                assert((rem as nat * 10) / den as nat == dig as nat);
                assert((rem as nat * 10) % den as nat == rem_next as nat);
                assert(cur == match nxt {
                    None => None::<Seq<u8>>,
                    Some(w) => Some(seq![b] + w),
                });
                let orig = frac_digits_s(rem0 as nat, den as nat, 64);
                if orig is Some {
                    let t = orig->Some_0;
                    let u = cur->Some_0;
                    let w = nxt->Some_0;
                    assert(t == ds@ + u);
                    assert(u == seq![b] + w);
                    assert(ds@ + (seq![b] + w) =~= (ds@ + seq![b]) + w);
                    assert(ds@.push(b) =~= ds@ + seq![b]);
                }
            }
            ds.push(48 + dig as u8);
            rem = rem_next;
            fuel = fuel - 1;
        }
        if rem != 0 {
            // no finite expansion within the fuel bound
            return None;
        }
        let mut out: Vec<u8> = Vec::new();
        if neg {
            out.push(45);
        }
        push_dec_u64(&mut out, ipart);
        if ds.len() > 0 {
            out.push(46);
            let mut k: usize = 0;
            while k < ds.len()
                invariant
                    k <= ds@.len(),
                    out@ == (if neg {
                        seq![45u8]
                    } else {
                        Seq::<u8>::empty()
                    }) + dec_digits_of(ipart as nat) + seq![46u8] + ds@.subrange(0, k as int),
                decreases ds@.len() - k,
            {
                out.push(ds[k]);
                proof {
                    assert(ds@.subrange(0, k as int + 1) =~= ds@.subrange(0, k as int).push(
                        ds@[k as int],
                    ));
                }
                k = k + 1;
            }
            proof {
                assert(ds@.subrange(0, ds@.len() as int) =~= ds@);
                assert(out@ =~= (if neg {
                    seq![45u8]
                } else {
                    Seq::<u8>::empty()
                }) + dec_digits_of(ipart as nat) + (seq![46u8] + ds@));
            }
        } else {
            proof {
                assert(out@ =~= (if neg {
                    seq![45u8]
                } else {
                    Seq::<u8>::empty()
                }) + dec_digits_of(ipart as nat) + Seq::<u8>::empty());
            }
        }
        Some(out)
    }
}

/// A value built by `rat_make` denotes exactly the fraction it was
/// built from: the cross products agree.
pub proof fn lemma_rat_make_value(n: int, d: int)
    requires
        d != 0,
        rat_make(n, d) is Some,
    ensures
        ({
            let v = rat_make(n, d)->Some_0;
            v.num * d == n * v.den
        }),
{
    let n1 = if d < 0 { -n } else { n };
    let d1 = if d < 0 { -d } else { d };
    let a = abs_int(n1);
    lemma_gcd_divides(a as nat, d1 as nat);
    let g = gcd(a as nat, d1 as nat) as int;
    let a2 = a / g;
    let d2 = d1 / g;
    lemma_fundamental_div_mod(a, g);
    lemma_fundamental_div_mod(d1, g);
    assert(a == g * a2);
    assert(d1 == g * d2);
    let v = rat_make(n, d)->Some_0;
    assert(v.den == d2);
    assert(v.num == if n1 < 0 {
        -a2
    } else {
        a2
    });
    assert(v.num * d == n * v.den) by (nonlinear_arith)
        requires
            n1 == (if d < 0 {
                -n
            } else {
                n
            }),
            d1 == (if d < 0 {
                -d
            } else {
                d
            }),
            a == (if n1 < 0 {
                -n1
            } else {
                n1
            }),
            a == g * a2,
            d1 == g * d2,
            v.den == d2,
            v.num == (if n1 < 0 {
                -a2
            } else {
                a2
            }),
            d != 0,
    {}
}

/// Every common divisor of `a` and `b` divides their greatest common
/// divisor.
pub proof fn lemma_gcd_greatest(a: nat, b: nat, k: nat)
    requires
        k >= 1,
        a as int % k as int == 0,
        b as int % k as int == 0,
    ensures
        gcd(a, b) as int % k as int == 0,
    decreases b,
{
    if b == 0 {
        assert(gcd(a, b) == a);
    } else {
        let r = a % b;
        lemma_fundamental_div_mod(a as int, b as int);
        lemma_fundamental_div_mod(a as int, k as int);
        lemma_fundamental_div_mod(b as int, k as int);
        let q = a as int / b as int;
        let ka = a as int / k as int;
        let kb = b as int / k as int;
        assert(a as int == k as int * ka);
        assert(b as int == k as int * kb);
        let m = ka - q * kb;
        assert(r as int == k as int * m) by (nonlinear_arith)
            requires
                a as int == b as int * q + r as int,
                a as int == k as int * ka,
                b as int == k as int * kb,
                m == ka - q * kb,
        {}
        lemma_mod_multiples_basic(m, k as int);
        lemma_gcd_greatest(b, r, k);
    }
}

/// Dividing two numbers by their greatest common divisor leaves them
/// coprime: `rat_make` really produces fractions in lowest terms.
pub proof fn lemma_reduced_coprime(a: nat, b: nat)
    requires
        b >= 1,
    ensures
        ({
            let g = gcd(a, b);
            gcd((a as int / g as int) as nat, (b as int / g as int) as nat) == 1
        }),
{
    lemma_gcd_divides(a, b);
    let g = gcd(a, b);
    let a2 = (a as int / g as int) as nat;
    let b2 = (b as int / g as int) as nat;
    lemma_fundamental_div_mod(a as int, g as int);
    lemma_fundamental_div_mod(b as int, g as int);
    assert(a as int == g as int * a2);
    assert(b as int == g as int * b2);
    assert(b2 >= 1) by (nonlinear_arith)
        requires
            b as int == g as int * b2,
            b >= 1,
            g >= 1,
    {}
    lemma_gcd_divides(a2, b2);
    let h = gcd(a2, b2);
    // g * h divides both a and b, so it divides g; hence h is 1
    lemma_fundamental_div_mod(a2 as int, h as int);
    lemma_fundamental_div_mod(b2 as int, h as int);
    let a3 = a2 as int / h as int;
    let b3 = b2 as int / h as int;
    assert(a2 as int == h as int * a3);
    assert(b2 as int == h as int * b3);
    assert(a as int == (g * h) as int * a3 && b as int == (g * h) as int * b3)
        by (nonlinear_arith)
        requires
            a as int == g as int * a2,
            b as int == g as int * b2,
            a2 as int == h as int * a3,
            b2 as int == h as int * b3,
    {}
    lemma_mod_multiples_basic(a3, (g * h) as int);
    lemma_mod_multiples_basic(b3, (g * h) as int);
    assert((g * h) >= 1) by (nonlinear_arith)
        requires
            g >= 1,
            h >= 1,
    {}
    assert(a as int == a3 * (g * h) as int && b as int == b3 * (g * h) as int)
        by (nonlinear_arith)
        requires
            a as int == (g * h) as int * a3,
            b as int == (g * h) as int * b3,
    {}
    assert(a as int % ((g * h) as int) == 0);
    assert(b as int % ((g * h) as int) == 0);
    lemma_gcd_greatest(a, b, g * h);
    lemma_fundamental_div_mod(g as int, (g * h) as int);
    let w = g as int / (g * h) as int;
    assert(g as int == (g * h) as int * w);
    assert(h == 1) by (nonlinear_arith)
        requires
            g as int == (g * h) as int * w,
            g >= 1,
            h >= 1,
    {}
}

/// A value built by `rat_make` is in lowest terms: its numerator's
/// magnitude and its denominator are coprime.
pub proof fn lemma_rat_make_lowest_terms(n: int, d: int)
    requires
        d != 0,
        rat_make(n, d) is Some,
    ensures
        ({
            let v = rat_make(n, d)->Some_0;
            gcd(abs_int(v.num as int) as nat, v.den as nat) == 1
        }),
{
    let n1 = if d < 0 { -n } else { n };
    let d1 = if d < 0 { -d } else { d };
    let a = abs_int(n1);
    lemma_reduced_coprime(a as nat, d1 as nat);
    lemma_gcd_divides(a as nat, d1 as nat);
    let g = gcd(a as nat, d1 as nat) as int;
    let v = rat_make(n, d)->Some_0;
    lemma_fundamental_div_mod(a, g);
    assert(a / g >= 0) by (nonlinear_arith)
        requires
            a >= 0,
            g >= 1,
            g * (a / g) + a % g == a,
            0 <= a % g < g,
    {}
    assert(v.den == d1 / g);
    assert(v.num as int == if n1 < 0 {
        -(a / g)
    } else {
        a / g
    });
    assert(abs_int(v.num as int) == a / g);
    assert(gcd((a / g) as nat, (d1 / g) as nat) == 1);
    assert(abs_int(v.num as int) as nat == (a / g) as nat);
    assert(v.den as nat == (d1 / g) as nat);
}

/// A fraction already in lowest terms passes through `rat_make`
/// unchanged.
pub proof fn lemma_rat_make_canonical(v: Rat)
    requires
        v.inv(),
        gcd(abs_int(v.num as int) as nat, v.den as nat) == 1,
    ensures
        rat_make(v.num as int, v.den as int) == Some(v),
{
    let a = abs_int(v.num as int);
    let d = v.den as int;
    assert(a / 1 == a && d / 1 == d) by (nonlinear_arith)
        requires
            a >= 0,
            d >= 1,
    {}
}

/// The value one in lowest terms is exactly `1 / 1`.
pub proof fn lemma_canonical_one(v: Rat)
    requires
        v.inv(),
        v.is_one_s(),
        gcd(abs_int(v.num as int) as nat, v.den as nat) == 1,
    ensures
        v == (Rat { num: 1, den: 1 }),
{
    let n = v.den as nat;
    lemma_mod_self_0(n as int);
    assert(gcd(n, n) == gcd(n, 0));
}

/// The value zero in lowest terms is exactly `0 / 1`.
pub proof fn lemma_canonical_zero(v: Rat)
    requires
        v.inv(),
        v.is_zero_s(),
        gcd(abs_int(v.num as int) as nat, v.den as nat) == 1,
    ensures
        v == (Rat { num: 0, den: 1 }),
{
    let n = v.den as nat;
    lemma_small_mod(0, n);
    assert(gcd(0, n) == gcd(n, 0));
}

/// The zero fraction reduces to `0 / 1` whatever its denominator.
pub proof fn lemma_rat_make_zero(d: int)
    requires
        d >= 1,
    ensures
        rat_make(0, d) == Some(Rat { num: 0, den: 1 }),
{
    lemma_small_mod(0, d as nat);
    assert(gcd(0, d as nat) == gcd(d as nat, 0));
    assert(gcd(0, d as nat) == d as nat);
    lemma_fundamental_div_mod(0int, d);
    assert(0int / d == 0) by (nonlinear_arith)
        requires
            d >= 1,
            d * (0int / d) + 0int % d == 0,
            0 <= 0int % d < d,
    {}
    vstd::arithmetic::div_mod::lemma_div_by_self(d);
}

/// Adding zero, multiplying by one, or dividing by one returns a
/// lowest-terms value unchanged; multiplying by zero gives `0 / 1`;
/// a power with exponent zero gives `1 / 1`, one with exponent one
/// the base itself.
pub proof fn lemma_rat_identities(a: Rat)
    requires
        a.inv(),
        gcd(abs_int(a.num as int) as nat, a.den as nat) == 1,
    ensures
        rat_add_s(a, Rat { num: 0, den: 1 }) == Some(a),
        rat_add_s(Rat { num: 0, den: 1 }, a) == Some(a),
        rat_mul_s(a, Rat { num: 1, den: 1 }) == Some(a),
        rat_mul_s(Rat { num: 1, den: 1 }, a) == Some(a),
        rat_div_s(a, Rat { num: 1, den: 1 }) == Some(a),
        rat_mul_s(a, Rat { num: 0, den: 1 }) == Some(Rat { num: 0, den: 1 }),
        rat_mul_s(Rat { num: 0, den: 1 }, a) == Some(Rat { num: 0, den: 1 }),
        rat_pow_s(a, Rat { num: 0, den: 1 }) == Some(Rat { num: 1, den: 1 }),
        rat_pow_s(a, Rat { num: 1, den: 1 }) == Some(a),
    decreases 0int,
{
    lemma_rat_make_canonical(a);
    lemma_rat_make_zero(a.den as int);
    vstd::arithmetic::power::lemma_pow0(a.num as int);
    vstd::arithmetic::power::lemma_pow0(a.den as int);
    vstd::arithmetic::power::lemma_pow1(a.num as int);
    vstd::arithmetic::power::lemma_pow1(a.den as int);
    let one = Rat { num: 1, den: 1 };
    lemma_mod_self_0(1);
    assert(gcd(1, 1) == gcd(1, 0));
    lemma_rat_make_canonical(one);
    let zero = Rat { num: 0, den: 1 };
    assert(zero.den == 1 && zero.num == 0 && one.den == 1 && one.num == 1);
    assert(a.num * zero.den + zero.num * a.den == a.num && zero.num * a.den + a.num * zero.den
        == a.num && a.den * zero.den == a.den && zero.den * a.den == a.den && a.num * one.den
        == a.num && one.num * a.den == a.den && a.den * one.den == a.den && one.den * a.den
        == a.den && a.num * one.num == a.num && one.num * a.num == a.num && a.num * zero.num == 0
        && zero.num * a.num == 0 && 1 * a.den as int == a.den && a.den as int * 1 == a.den)
        by (nonlinear_arith)
        requires
            zero.den == 1,
            zero.num == 0,
            one.den == 1,
            one.num == 1,
    {}
}

/// The product of two nonzero machine integers is nonzero.
pub proof fn lemma_mul_i64_nonzero(x: int, y: int)
    requires
        x != 0,
        y != 0,
    ensures
        x * y != 0,
{
    assert(x * y != 0) by (nonlinear_arith)
        requires
            x != 0,
            y != 0,
    {}
}

/// A defined power is in lowest terms.
pub proof fn lemma_rat_pow_canonical(a: Rat, e: Rat)
    requires
        rat_pow_s(a, e) is Some,
    ensures
        ({
            let v = rat_pow_s(a, e)->Some_0;
            v.inv() && gcd(abs_int(v.num as int) as nat, v.den as nat) == 1
        }),
{
    let k = abs_int(e.num as int) as nat;
    if e.num >= 0 {
        lemma_rat_make_lowest_terms(pow(a.num as int, e.num as nat), pow(a.den as int, e.num as nat));
        lemma_rat_make_inv(pow(a.num as int, e.num as nat), pow(a.den as int, e.num as nat));
    } else {
        lemma_rat_make_lowest_terms(pow(a.den as int, k), pow(a.num as int, k));
        lemma_rat_make_inv(pow(a.den as int, k), pow(a.num as int, k));
    }
}

/// A value built by `rat_make` is well formed.
pub proof fn lemma_rat_make_inv(n: int, d: int)
    requires
        rat_make(n, d) is Some,
    ensures
        rat_make(n, d)->Some_0.inv(),
{
    let d1 = if d < 0 { -d } else { d };
    let n1 = if d < 0 { -n } else { n };
    let a = abs_int(n1);
    lemma_gcd_divides(a as nat, d1 as nat);
    let g = gcd(a as nat, d1 as nat) as int;
    lemma_fundamental_div_mod(d1, g);
    assert(d1 / g >= 1) by (nonlinear_arith)
        requires
            d1 == g * (d1 / g),
            d1 >= 1,
            g >= 1,
    {}
    lemma_fundamental_div_mod(a, g);
    assert(a / g >= 0) by (nonlinear_arith)
        requires
            a >= 0,
            g >= 1,
            g * (a / g) + a % g == a,
            0 <= a % g < g,
    {}
}

} // verus!
