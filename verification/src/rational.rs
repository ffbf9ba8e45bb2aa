//! Exact rational values and the arithmetic of the expression evaluator.
//!
//! Every value that flows through the stack machine is a fraction in lowest
//! terms: a signed numerator and a positive denominator with no common
//! divisor.  Each operation either returns the mathematically exact result,
//! again in lowest terms, or a classified failure when the result falls
//! outside the configured bounds or outside the representable range.
use vstd::prelude::*;
use vstd::arithmetic::div_mod::{
    lemma_fundamental_div_mod, lemma_add_mod_noop, lemma_mod_multiples_basic,
    lemma_mul_mod_noop_left, lemma_div_of0, lemma_div_by_self,
};
use crate::rpn_evaluator::{EvalError, Operator};

verus! {

/// Magnitude of an integer.
pub open spec fn iabs(n: int) -> nat {
    if n >= 0 {
        n as nat
    } else {
        (-n) as nat
    }
}

/// Greatest common divisor by Euclid's rule; `gcd_nat(a, 0) == a`.
pub open spec fn gcd_nat(a: nat, b: nat) -> nat
    decreases b,
{
    if b == 0 {
        a
    } else {
        gcd_nat(b, a % b)
    }
}

/// A rational number in lowest terms: `num / den` with `den >= 1`.
#[derive(Clone, Copy, PartialEq, Eq, Structural, Debug)]
pub struct Rat {
    pub num: i64,
    pub den: u32,
}

impl Rat {
    /// Well-formed: positive denominator and fully reduced.
    pub open spec fn wf(self) -> bool {
        &&& self.den >= 1
        &&& gcd_nat(iabs(self.num as int), self.den as nat) == 1
    }

    /// The exact integer `n`.
    pub fn from_int(n: i64) -> (r: Rat)
        ensures
            r == (Rat { num: n, den: 1 }),
            r.wf(),
    {
        proof {
            lemma_gcd_one_right(iabs(n as int));
        }
        Rat { num: n, den: 1 }
    }

    /// Whether this value is exactly the non-negative integer `n`.
    pub fn is_integer_value(&self, n: u64) -> (r: bool)
        ensures
            r == (self.den == 1 && self.num >= 0 && self.num == n),
    {
        self.den == 1 && self.num >= 0 && n <= i64::MAX as u64 && self.num == n as i64
    }
}

/// `gcd_nat(a, 1) == 1`.
pub proof fn lemma_gcd_one_right(a: nat)
    ensures
        gcd_nat(a, 1) == 1,
{
    assert(gcd_nat(a, 1) == gcd_nat(1, a % 1));
    assert(a % 1 == 0);
}

/// The gcd of two numbers, the second positive, is positive.
pub proof fn lemma_gcd_pos(a: nat, b: nat)
    requires
        a > 0 || b > 0,
    ensures
        gcd_nat(a, b) > 0,
    decreases b,
{
    if b == 0 {
    } else {
        lemma_gcd_pos(b, a % b);
    }
}

/// The gcd divides both of its arguments.
pub proof fn lemma_gcd_divides(a: nat, b: nat)
    requires
        a > 0 || b > 0,
    ensures
        gcd_nat(a, b) > 0,
        a % gcd_nat(a, b) == 0,
        b % gcd_nat(a, b) == 0,
    decreases b,
{
    lemma_gcd_pos(a, b);
    if b == 0 {
        assert(a % a == 0) by {
            lemma_mod_multiples_basic(1, a as int);
        }
        assert(0int % a as int == 0) by {
            lemma_mod_multiples_basic(0, a as int);
        }
    } else {
        let g = gcd_nat(b, a % b);
        lemma_gcd_divides(b, a % b);
        // a == b * (a / b) + a % b, and g divides both summands.
        lemma_fundamental_div_mod(a as int, b as int);
        assert((b * (a as int / b as int)) % (g as int) == 0) by {
            lemma_mul_mod_noop_left(b as int, a as int / b as int, g as int);
            assert(((b as int % g as int) * (a as int / b as int)) % (g as int) == 0) by {
                lemma_mod_multiples_basic(0, g as int);
            }
        }
        assert(a as int % g as int == 0) by {
            lemma_add_mod_noop(b * (a as int / b as int), (a % b) as int, g as int);
        }
    }
}

/// The gcd is symmetric in its arguments.
pub proof fn lemma_gcd_comm(a: nat, b: nat)
    ensures
        gcd_nat(a, b) == gcd_nat(b, a),
{
    if a == b {
    } else if b == 0 {
        if a > 0 {
            assert(0nat % a == 0) by {
                lemma_mod_multiples_basic(0, a as int);
            }
            assert(gcd_nat(b, a) == gcd_nat(a, 0));
        }
    } else if a < b {
        assert(a % b == a) by {
            vstd::arithmetic::div_mod::lemma_small_mod(a, b);
        }
        assert(gcd_nat(a, b) == gcd_nat(b, a));
    } else {
        assert(b % a == b) by {
            vstd::arithmetic::div_mod::lemma_small_mod(b, a);
        }
        assert(gcd_nat(b, a) == gcd_nat(a, b));
    }
}

/// Bezout's identity: the gcd is an integer combination of its arguments.
pub proof fn lemma_bezout(a: nat, b: nat)
    ensures
        exists|x: int, y: int| #[trigger] (x * a + y * b) == gcd_nat(a, b),
    decreases b,
{
    if b == 0 {
        assert(1int * a + 0int * b == gcd_nat(a, b)) by (nonlinear_arith)
            requires
                gcd_nat(a, b) == a,
        ;
    } else {
        lemma_bezout(b, a % b);
        let (x2, y2) = choose|x: int, y: int| #[trigger] (x * b + y * (a % b)) == gcd_nat(
            b,
            a % b,
        );
        lemma_fundamental_div_mod(a as int, b as int);
        let q = a as int / b as int;
        assert(y2 * a + (x2 - y2 * q) * b == gcd_nat(a, b)) by (nonlinear_arith)
            requires
                x2 * b + y2 * ((a as int) - (b as int) * q) == gcd_nat(a, b),
        ;
    }
}

/// A common divisor divides every integer combination.
proof fn lemma_divides_linear(g: int, a: int, b: int, x: int, y: int)
    requires
        g >= 1,
        a % g == 0,
        b % g == 0,
    ensures
        (x * a + y * b) % g == 0,
{
    assert((x * a) % g == 0) by {
        lemma_mul_mod_noop_left(a, x, g);
        assert(((a % g) * x) % g == 0) by {
            lemma_mod_multiples_basic(0, g);
        }
        assert(a * x == x * a) by (nonlinear_arith);
    }
    assert((y * b) % g == 0) by {
        lemma_mul_mod_noop_left(b, y, g);
        assert(((b % g) * y) % g == 0) by {
            lemma_mod_multiples_basic(0, g);
        }
        assert(b * y == y * b) by (nonlinear_arith);
    }
    lemma_add_mod_noop(x * a, y * b, g);
    assert(0int % g == 0) by {
        lemma_mod_multiples_basic(0, g);
    }
}

/// The reduced form of `n / d`: both components divided by their gcd,
/// the sign kept on the numerator.
pub open spec fn canon_num(n: int, d: int) -> int
    recommends
        d >= 1,
{
    let g = gcd_nat(iabs(n), d as nat) as int;
    let q = iabs(n) as int / g;
    if n >= 0 {
        q
    } else {
        -q
    }
}

/// Denominator of the reduced form of `n / d`.
pub open spec fn canon_den(n: int, d: int) -> int
    recommends
        d >= 1,
{
    d / (gcd_nat(iabs(n), d as nat) as int)
}

/// Whether a reduced pair is representable.
pub open spec fn fits_rat(n: int, d: int) -> bool {
    &&& i64::MIN <= n <= i64::MAX
    &&& 1 <= d <= u32::MAX
}

/// Reduce `n / d` and represent it, or reject it as out of range.
pub open spec fn norm_spec(n: int, d: int) -> Result<Rat, EvalError>
    recommends
        d >= 1,
{
    let cn = canon_num(n, d);
    let cd = canon_den(n, d);
    if fits_rat(cn, cd) {
        Ok(Rat { num: cn as i64, den: cd as u32 })
    } else {
        Err(EvalError::ArithmeticOutOfRange)
    }
}

/// Reducing a fraction does not change the number it denotes, and the
/// reduced denominator stays positive.
pub proof fn lemma_canon_exact(n: int, d: int)
    requires
        d >= 1,
    ensures
        canon_den(n, d) >= 1,
        canon_num(n, d) * d == n * canon_den(n, d),
{
    let g = gcd_nat(iabs(n), d as nat) as int;
    lemma_gcd_divides(iabs(n), d as nat);
    let m = iabs(n) as int;
    lemma_fundamental_div_mod(m, g);
    lemma_fundamental_div_mod(d, g);
    assert(m == g * (m / g));
    assert(d == g * (d / g));
    assert(d / g >= 1) by {
        if d / g <= 0 {
            assert(g * (d / g) <= 0) by (nonlinear_arith)
                requires
                    g > 0,
                    d / g <= 0,
            ;
        }
    }
    assert((m / g) * d == m * (d / g)) by (nonlinear_arith)
        requires
            m == g * (m / g),
            d == g * (d / g),
            g > 0,
    ;
    if n < 0 {
        assert(canon_num(n, d) == -(m / g));
        assert((-(m / g)) * d == -((m / g) * d)) by (nonlinear_arith);
        assert((-m) * (d / g) == -(m * (d / g))) by (nonlinear_arith);
    }
}

/// The reduced form of a fraction is in lowest terms.
pub proof fn lemma_canon_coprime(n: int, d: int)
    requires
        d >= 1,
    ensures
        gcd_nat(iabs(canon_num(n, d)), canon_den(n, d) as nat) == 1,
{
    let m = iabs(n) as int;
    let g = gcd_nat(iabs(n), d as nat) as int;
    lemma_gcd_divides(iabs(n), d as nat);
    lemma_fundamental_div_mod(m, g);
    lemma_fundamental_div_mod(d, g);
    let m2 = m / g;
    let d2 = d / g;
    lemma_canon_exact(n, d);
    assert(iabs(canon_num(n, d)) == m2);
    assert(m2 >= 0) by {
        if m2 < 0 {
            assert(g * m2 <= g * -1) by (nonlinear_arith)
                requires
                    g >= 1,
                    m2 <= -1,
            ;
        }
    }
    lemma_bezout(iabs(n), d as nat);
    let (x, y) = choose|x: int, y: int| #[trigger] (x * iabs(n) + y * (d as nat)) == gcd_nat(
        iabs(n),
        d as nat,
    );
    assert(x * m2 + y * d2 == 1) by (nonlinear_arith)
        requires
            x * m + y * d == g,
            m == g * m2,
            d == g * d2,
            g >= 1,
    ;
    let g2 = gcd_nat(m2 as nat, d2 as nat);
    lemma_gcd_divides(m2 as nat, d2 as nat);
    lemma_divides_linear(g2 as int, m2, d2, x, y);
    if g2 >= 2 {
        assert(1nat % g2 == 1) by {
            vstd::arithmetic::div_mod::lemma_small_mod(1, g2);
        }
    }
}

/// A rational has only one representation in lowest terms with a positive
/// denominator.
pub proof fn lemma_lowest_terms_unique(n1: int, d1: int, n2: int, d2: int)
    requires
        d1 >= 1,
        d2 >= 1,
        n1 * d2 == n2 * d1,
        gcd_nat(iabs(n1), d1 as nat) == 1,
        gcd_nat(iabs(n2), d2 as nat) == 1,
    ensures
        n1 == n2,
        d1 == d2,
{
    let m1 = iabs(n1) as int;
    let m2 = iabs(n2) as int;
    assert(m1 * d2 == m2 * d1) by (nonlinear_arith)
        requires
            n1 * d2 == n2 * d1,
            d1 >= 1,
            d2 >= 1,
            m1 == iabs(n1),
            m2 == iabs(n2),
            (n1 >= 0 ==> m1 == n1) && (n1 < 0 ==> m1 == -n1),
            (n2 >= 0 ==> m2 == n2) && (n2 < 0 ==> m2 == -n2),
    ;
    lemma_bezout(iabs(n1), d1 as nat);
    let (x1, y1) = choose|x: int, y: int| #[trigger] (x * iabs(n1) + y * (d1 as nat)) == gcd_nat(
        iabs(n1),
        d1 as nat,
    );
    assert(d2 == d1 * (x1 * m2 + y1 * d2)) by (nonlinear_arith)
        requires
            x1 * m1 + y1 * d1 == 1,
            m1 * d2 == m2 * d1,
    ;
    lemma_bezout(iabs(n2), d2 as nat);
    let (x2, y2) = choose|x: int, y: int| #[trigger] (x * iabs(n2) + y * (d2 as nat)) == gcd_nat(
        iabs(n2),
        d2 as nat,
    );
    assert(d1 == d2 * (x2 * m1 + y2 * d1)) by (nonlinear_arith)
        requires
            x2 * m2 + y2 * d2 == 1,
            m1 * d2 == m2 * d1,
    ;
    assert(d1 == d2) by (nonlinear_arith)
        requires
            d1 >= 1,
            d2 >= 1,
            d2 == d1 * (x1 * m2 + y1 * d2),
            d1 == d2 * (x2 * m1 + y2 * d1),
    ;
    assert(n1 == n2) by (nonlinear_arith)
        requires
            n1 * d2 == n2 * d1,
            d1 == d2,
            d1 >= 1,
    ;
}

/// The exact value 1.
pub open spec fn rat_one() -> Rat {
    Rat { num: 1, den: 1 }
}

/// The exact value 0.
pub open spec fn rat_zero() -> Rat {
    Rat { num: 0, den: 1 }
}

/// The quotient or power `n / d` is below the lower bound 1/1000.
pub open spec fn below_lower(n: int, d: int) -> bool
    recommends
        d >= 1,
{
    1000 * n < d
}

/// The quotient `n / d` is above the upper bound 2^30.
pub open spec fn above_upper(n: int, d: int) -> bool
    recommends
        d >= 1,
{
    n > d * 0x4000_0000
}

/// The power `n / d` is at or above the upper bound 2^30.
pub open spec fn at_upper(n: int, d: int) -> bool
    recommends
        d >= 1,
{
    n >= d * 0x4000_0000
}

/// Exact sum.
pub open spec fn add_spec(a: Rat, b: Rat) -> Result<Rat, EvalError> {
    norm_spec(
        (a.num as int) * (b.den as int) + (b.num as int) * (a.den as int),
        (a.den as int) * (b.den as int),
    )
}

/// Exact difference `a - b`.
pub open spec fn sub_spec(a: Rat, b: Rat) -> Result<Rat, EvalError> {
    norm_spec(
        (a.num as int) * (b.den as int) - (b.num as int) * (a.den as int),
        (a.den as int) * (b.den as int),
    )
}

/// Exact product.
pub open spec fn mul_spec(a: Rat, b: Rat) -> Result<Rat, EvalError> {
    norm_spec((a.num as int) * (b.num as int), (a.den as int) * (b.den as int))
}

/// Numerator of the raw quotient `a / b`, sign moved to the numerator.
pub open spec fn div_raw_num(a: Rat, b: Rat) -> int {
    if b.num >= 0 {
        (a.num as int) * (b.den as int)
    } else {
        -((a.num as int) * (b.den as int))
    }
}

/// Denominator of the raw quotient `a / b`, made positive.
pub open spec fn div_raw_den(a: Rat, b: Rat) -> int {
    if b.num >= 0 {
        (a.den as int) * (b.num as int)
    } else {
        (a.den as int) * (-(b.num as int))
    }
}

/// Exact quotient `a / b`.  Division by zero and any quotient outside
/// [1/1000, 2^30] are rejected as out of range.
pub open spec fn div_spec(a: Rat, b: Rat) -> Result<Rat, EvalError> {
    if b.num == 0 {
        Err(EvalError::ArithmeticOutOfRange)
    } else {
        let n = div_raw_num(a, b);
        let d = div_raw_den(a, b);
        if below_lower(n, d) || above_upper(n, d) {
            Err(EvalError::ArithmeticOutOfRange)
        } else {
            norm_spec(n, d)
        }
    }
}

/// Exact `a` to the `k`-th power, for a non-negative exponent, by repeated
/// exact multiplication; the first unrepresentable intermediate result
/// rejects the whole power.
pub open spec fn pow_nat_spec(a: Rat, k: nat) -> Result<Rat, EvalError>
    decreases k,
{
    if k == 0 {
        Ok(rat_one())
    } else {
        match pow_nat_spec(a, (k - 1) as nat) {
            Ok(p) => mul_spec(p, a),
            Err(e) => Err(e),
        }
    }
}

/// Exact reciprocal of a non-zero value, or out of range when the flipped
/// fraction is not representable.
pub open spec fn invert_spec(a: Rat) -> Result<Rat, EvalError>
    recommends
        a.num != 0,
{
    let n = if a.num >= 0 {
        a.den as int
    } else {
        -(a.den as int)
    };
    let d = iabs(a.num as int) as int;
    if fits_rat(n, d) {
        Ok(Rat { num: n as i64, den: d as u32 })
    } else {
        Err(EvalError::ArithmeticOutOfRange)
    }
}

/// Exact power `a ^ b`.  Only integer exponents denote exact rationals;
/// any other exponent, and any result outside [1/1000, 2^30), is rejected
/// as out of range.
pub open spec fn pow_spec(a: Rat, b: Rat) -> Result<Rat, EvalError> {
    if b.den != 1 {
        Err(EvalError::ArithmeticOutOfRange)
    } else {
        let base = if b.num >= 0 {
            Ok(a)
        } else if a.num == 0 {
            Err(EvalError::ArithmeticOutOfRange)
        } else {
            invert_spec(a)
        };
        match base {
            Ok(base) => match pow_nat_spec(base, iabs(b.num as int)) {
                Ok(p) => if below_lower(p.num as int, p.den as int) || at_upper(
                    p.num as int,
                    p.den as int,
                ) {
                    Err(EvalError::ArithmeticOutOfRange)
                } else {
                    Ok(p)
                },
                Err(e) => Err(e),
            },
            Err(e) => Err(e),
        }
    }
}

/// Number of decimal digits of `n` (1 for 0..9).
pub open spec fn digit_count(n: nat) -> nat
    decreases n,
{
    if n < 10 {
        1
    } else {
        1 + digit_count(n / 10)
    }
}

/// `10 ^ k`.
pub open spec fn pow10(k: nat) -> int
    decreases k,
{
    if k == 0 {
        1
    } else {
        10 * pow10((k - 1) as nat)
    }
}

/// The number whose decimal form appends the digits of `b` to those of
/// `a`, for integer values.
pub open spec fn concat_value(a: Rat, b: Rat) -> int {
    let shift = pow10(digit_count(b.num as nat));
    if a.num >= 0 {
        (a.num as int) * shift + b.num
    } else {
        (a.num as int) * shift - b.num
    }
}

/// Exact concatenation of decimal forms: both values must be integers and
/// the right one non-negative, so that the joined text is again one
/// integer literal; the result appends the digits of `b` to those of `a`.
pub open spec fn concat_spec(a: Rat, b: Rat) -> Result<Rat, EvalError> {
    if a.den == 1 && b.den == 1 && b.num >= 0 {
        let v = concat_value(a, b);
        if fits_rat(v, 1) {
            Ok(Rat { num: v as i64, den: 1 })
        } else {
            Err(EvalError::ArithmeticOutOfRange)
        }
    } else {
        Err(EvalError::ConcatenationInvalid)
    }
}

/// What one operator returns on two exact operands, `a` first.
pub open spec fn apply_operator_spec(op: Operator, a: Rat, b: Rat) -> Result<Rat, EvalError> {
    match op {
        Operator::Addition => add_spec(a, b),
        Operator::Substraction => sub_spec(a, b),
        Operator::Multiplication => mul_spec(a, b),
        Operator::Division => div_spec(a, b),
        Operator::Concatenation => concat_spec(a, b),
        Operator::Power => pow_spec(a, b),
    }
}

/// Bounds on a product from bounds on its factors.
proof fn lemma_mul_bound(x: int, y: int, bx: int, by: int)
    requires
        -bx <= x <= bx,
        -by <= y <= by,
        bx >= 0,
        by >= 0,
    ensures
        -(bx * by) <= x * y <= bx * by,
{
    assert(-(bx * by) <= x * y <= bx * by) by (nonlinear_arith)
        requires
            -bx <= x <= bx,
            -by <= y <= by,
            bx >= 0,
            by >= 0,
    ;
}

/// A product of positive factors is positive.
proof fn lemma_mul_pos(x: int, y: int)
    requires
        x >= 1,
        y >= 1,
    ensures
        x * y >= 1,
{
    assert(x * y >= 1) by (nonlinear_arith)
        requires
            x >= 1,
            y >= 1,
    ;
}

/// Exact greatest common divisor of two machine words.
fn gcd_u128(a: u128, b: u128) -> (g: u128)
    ensures
        g as nat == gcd_nat(a as nat, b as nat),
    decreases b,
{
    let mut x = a;
    let mut y = b;
    while y != 0
        invariant
            gcd_nat(x as nat, y as nat) == gcd_nat(a as nat, b as nat),
        decreases y,
    {
        let r = x % y;
        x = y;
        y = r;
    }
    x
}

/// Reduce the exact fraction `n / d` to lowest terms, or report that the
/// reduced form does not fit the representation.
fn normalize(n: i128, d: u128) -> (r: Result<Rat, EvalError>)
    requires
        d >= 1,
        n > i128::MIN,
    ensures
        r == norm_spec(n as int, d as int),
{
    let neg = n < 0;
    let m: u128 = if neg {
        (-n) as u128
    } else {
        n as u128
    };
    proof {
        assert(m as nat == iabs(n as int));
        lemma_gcd_pos(m as nat, d as nat);
    }
    let g = gcd_u128(m, d);
    let cn = m / g;
    let cd = d / g;
    proof {
        lemma_canon_exact(n as int, d as int);
        assert(cn as int == iabs(n as int) as int / g as int);
        assert(cd as int == canon_den(n as int, d as int));
    }
    if cd > u32::MAX as u128 {
        return Err(EvalError::ArithmeticOutOfRange);
    }
    if neg {
        if cn > 0x8000_0000_0000_0000u128 {
            return Err(EvalError::ArithmeticOutOfRange);
        }
        let num = (-(cn as i128)) as i64;
        Ok(Rat { num, den: cd as u32 })
    } else {
        if cn > i64::MAX as u128 {
            return Err(EvalError::ArithmeticOutOfRange);
        }
        Ok(Rat { num: cn as i64, den: cd as u32 })
    }
}

/// Exact sum of two rationals.
pub fn rat_add(a: Rat, b: Rat) -> (r: Result<Rat, EvalError>)
    requires
        a.den >= 1,
        b.den >= 1,
    ensures
        r == add_spec(a, b),
{
    proof {
        lemma_mul_bound(a.num as int, b.den as int, 0x8000_0000_0000_0000, 0xffff_ffff);
        lemma_mul_bound(b.num as int, a.den as int, 0x8000_0000_0000_0000, 0xffff_ffff);
        lemma_mul_bound(a.den as int, b.den as int, 0xffff_ffff, 0xffff_ffff);
        lemma_mul_pos(a.den as int, b.den as int);
    }
    let n = (a.num as i128) * (b.den as i128) + (b.num as i128) * (a.den as i128);
    let d = (a.den as u128) * (b.den as u128);
    normalize(n, d)
}

/// Exact difference of two rationals.
pub fn rat_sub(a: Rat, b: Rat) -> (r: Result<Rat, EvalError>)
    requires
        a.den >= 1,
        b.den >= 1,
    ensures
        r == sub_spec(a, b),
{
    proof {
        lemma_mul_bound(a.num as int, b.den as int, 0x8000_0000_0000_0000, 0xffff_ffff);
        lemma_mul_bound(b.num as int, a.den as int, 0x8000_0000_0000_0000, 0xffff_ffff);
        lemma_mul_bound(a.den as int, b.den as int, 0xffff_ffff, 0xffff_ffff);
        lemma_mul_pos(a.den as int, b.den as int);
    }
    let n = (a.num as i128) * (b.den as i128) - (b.num as i128) * (a.den as i128);
    let d = (a.den as u128) * (b.den as u128);
    normalize(n, d)
}

/// Exact product of two rationals.
pub fn rat_mul(a: Rat, b: Rat) -> (r: Result<Rat, EvalError>)
    requires
        a.den >= 1,
        b.den >= 1,
    ensures
        r == mul_spec(a, b),
{
    proof {
        lemma_mul_bound(a.num as int, b.num as int, 0x8000_0000_0000_0000, 0x8000_0000_0000_0000);
        lemma_mul_bound(a.den as int, b.den as int, 0xffff_ffff, 0xffff_ffff);
        lemma_mul_pos(a.den as int, b.den as int);
    }
    let n = (a.num as i128) * (b.num as i128);
    let d = (a.den as u128) * (b.den as u128);
    normalize(n, d)
}

/// Exact quotient of two rationals, with the configured bound checks.
pub fn rat_div(a: Rat, b: Rat) -> (r: Result<Rat, EvalError>)
    requires
        a.den >= 1,
        b.den >= 1,
    ensures
        r == div_spec(a, b),
{
    if b.num == 0 {
        return Err(EvalError::ArithmeticOutOfRange);
    }
    proof {
        lemma_mul_bound(a.num as int, b.den as int, 0x8000_0000_0000_0000, 0xffff_ffff);
        lemma_mul_bound(a.den as int, b.num as int, 0xffff_ffff, 0x8000_0000_0000_0000);
        lemma_mul_bound(a.den as int, -(b.num as int), 0xffff_ffff, 0x8000_0000_0000_0000);
    }
    let n: i128;
    let d: i128;
    if b.num >= 0 {
        n = (a.num as i128) * (b.den as i128);
        d = (a.den as i128) * (b.num as i128);
    } else {
        n = -((a.num as i128) * (b.den as i128));
        d = (a.den as i128) * (-(b.num as i128));
    }
    proof {
        assert(d >= 1) by {
            if b.num >= 1 {
                lemma_mul_pos(a.den as int, b.num as int);
            } else {
                lemma_mul_pos(a.den as int, -(b.num as int));
            }
        }
    }
    if 1000 * n < d || n > d * 0x4000_0000 {
        return Err(EvalError::ArithmeticOutOfRange);
    }
    normalize(n, d as u128)
}

/// `1 ^ k == 1`.
proof fn lemma_pow_one(k: nat)
    ensures
        pow_nat_spec(rat_one(), k) == Ok::<Rat, EvalError>(rat_one()),
    decreases k,
{
    if k == 0 {
    } else {
        lemma_pow_one((k - 1) as nat);
        lemma_gcd_one_right(1);
        assert(rat_one().num == 1 && rat_one().den == 1);
        assert(iabs(1) == 1);
        assert(canon_num(1, 1) == 1);
        assert(canon_den(1, 1) == 1);
        assert(fits_rat(1, 1));
        assert(norm_spec(1, 1) == Ok::<Rat, EvalError>(rat_one()));
        assert(mul_spec(rat_one(), rat_one()) == Ok::<Rat, EvalError>(rat_one()));
    }
}

/// Multiplying by an exact zero gives the canonical zero.
proof fn lemma_mul_by_zero(p: Rat, a: Rat)
    requires
        p.den >= 1,
        a.den >= 1,
        a.num == 0,
    ensures
        mul_spec(p, a) == Ok::<Rat, EvalError>(rat_zero()),
{
    let d = (p.den as int) * (a.den as int);
    lemma_mul_pos(p.den as int, a.den as int);
    assert((p.num as int) * (a.num as int) == 0) by (nonlinear_arith)
        requires
            a.num == 0,
    ;
    lemma_gcd_zero_left(d as nat);
    assert(gcd_nat(iabs(0), d as nat) == d as nat);
    lemma_div_of0(d);
    lemma_div_by_self(d);
    assert(canon_num(0, d) == 0);
    assert(canon_den(0, d) == 1);
}

/// `0 ^ k == 0` for positive `k`, whatever the denominator of the zero.
proof fn lemma_pow_zero(a: Rat, k: nat)
    requires
        a.num == 0,
        a.den >= 1,
        k >= 1,
    ensures
        pow_nat_spec(a, k) == Ok::<Rat, EvalError>(rat_zero()),
    decreases k,
{
    if k == 1 {
        assert(pow_nat_spec(a, 0) == Ok::<Rat, EvalError>(rat_one()));
        lemma_mul_by_zero(rat_one(), a);
    } else {
        lemma_pow_zero(a, (k - 1) as nat);
        lemma_mul_by_zero(rat_zero(), a);
    }
}

/// `gcd_nat(0, d) == d`.
proof fn lemma_gcd_zero_left(d: nat)
    ensures
        gcd_nat(0, d) == d,
{
    if d != 0 {
        assert(0nat % d == 0) by {
            lemma_mod_multiples_basic(0, d as int);
        }
        assert(gcd_nat(0, d) == gcd_nat(d, 0));
    }
}

/// `(-1) ^ k` alternates between 1 and -1.
proof fn lemma_pow_neg_one(k: nat)
    ensures
        pow_nat_spec(Rat { num: -1i64, den: 1 }, k) == Ok::<Rat, EvalError>(
            if k % 2 == 0 {
                rat_one()
            } else {
                Rat { num: -1i64, den: 1 }
            },
        ),
    decreases k,
{
    let m = Rat { num: -1i64, den: 1 };
    if k == 0 {
    } else {
        lemma_pow_neg_one((k - 1) as nat);
        lemma_gcd_one_right(1);
        assert(m.num == -1 && m.den == 1);
        assert(rat_one().num == 1 && rat_one().den == 1);
        assert(iabs(-1) == 1);
        assert(mul_spec(rat_one(), m) == Ok::<Rat, EvalError>(m));
        assert(mul_spec(m, m) == Ok::<Rat, EvalError>(rat_one()));
    }
}

/// A power that fails at some exponent fails at every larger exponent.
proof fn lemma_pow_err_persists(a: Rat, j: nat, k: nat)
    requires
        pow_nat_spec(a, j).is_err(),
        j <= k,
    ensures
        pow_nat_spec(a, k) == pow_nat_spec(a, j),
    decreases k - j,
{
    if j < k {
        lemma_pow_err_persists(a, j, (k - 1) as nat);
    }
}

/// Exact power with a non-negative machine exponent.
fn rat_pow_loop(base: Rat, k: u64) -> (r: Result<Rat, EvalError>)
    requires
        base.den >= 1,
    ensures
        r == pow_nat_spec(base, k as nat),
{
    if base.num == 1 && base.den == 1 {
        proof {
            lemma_pow_one(k as nat);
        }
        return Ok(Rat { num: 1, den: 1 });
    }
    if base.num == 0 && k >= 1 {
        proof {
            lemma_pow_zero(base, k as nat);
        }
        return Ok(Rat { num: 0, den: 1 });
    }
    if base.num == -1 && base.den == 1 {
        proof {
            lemma_pow_neg_one(k as nat);
        }
        if k % 2 == 0 {
            return Ok(Rat { num: 1, den: 1 });
        } else {
            return Ok(Rat { num: -1i64, den: 1 });
        }
    }
    let mut acc = Rat { num: 1, den: 1 };
    let mut i: u64 = 0;
    while i < k
        invariant
            i <= k,
            base.den >= 1,
            acc.den >= 1,
            pow_nat_spec(base, i as nat) == Ok::<Rat, EvalError>(acc),
        decreases k - i,
    {
        match rat_mul(acc, base) {
            Ok(p) => {
                acc = p;
                i = i + 1;
            },
            Err(e) => {
                proof {
                    assert(pow_nat_spec(base, (i + 1) as nat) == Err::<Rat, EvalError>(e));
                    lemma_pow_err_persists(base, (i + 1) as nat, k as nat);
                }
                return Err(e);
            },
        }
    }
    Ok(acc)
}

/// Exact power `a ^ b`, with the configured bound checks.
pub fn rat_pow(a: Rat, b: Rat) -> (r: Result<Rat, EvalError>)
    requires
        a.den >= 1,
        b.den >= 1,
    ensures
        r == pow_spec(a, b),
{
    if b.den != 1 {
        return Err(EvalError::ArithmeticOutOfRange);
    }
    let base: Rat;
    if b.num >= 0 {
        base = a;
    } else if a.num == 0 {
        return Err(EvalError::ArithmeticOutOfRange);
    } else {
        // Reciprocal: flip the fraction, keeping the denominator positive.
        if a.num > u32::MAX as i64 || a.num < -(u32::MAX as i64) {
            return Err(EvalError::ArithmeticOutOfRange);
        }
        let d: u32 = if a.num >= 0 {
            a.num as u32
        } else {
            (-a.num) as u32
        };
        let n: i64 = if a.num >= 0 {
            a.den as i64
        } else {
            -(a.den as i64)
        };
        base = Rat { num: n, den: d };
        proof {
            assert(invert_spec(a) == Ok::<Rat, EvalError>(base));
        }
    }
    let k: u64 = if b.num >= 0 {
        b.num as u64
    } else {
        (-(b.num as i128)) as u64
    };
    proof {
        assert(k as nat == iabs(b.num as int));
    }
    match rat_pow_loop(base, k) {
        Ok(p) => {
            if 1000 * (p.num as i128) < p.den as i128 || p.num as i128 >= (p.den as i128)
                * 0x4000_0000 {
                Err(EvalError::ArithmeticOutOfRange)
            } else {
                Ok(p)
            }
        },
        Err(e) => Err(e),
    }
}

/// Powers of ten are positive.
proof fn lemma_pow10_pos(k: nat)
    ensures
        pow10(k) >= 1,
    decreases k,
{
    if k > 0 {
        lemma_pow10_pos((k - 1) as nat);
    }
}

/// `pow10` grows with its exponent.
proof fn lemma_pow10_monotone(j: nat, k: nat)
    requires
        j <= k,
    ensures
        1 <= pow10(j) <= pow10(k),
    decreases k,
{
    lemma_pow10_pos(j);
    if j < k {
        lemma_pow10_monotone(j, (k - 1) as nat);
        assert(pow10(k) == 10 * pow10((k - 1) as nat));
    }
}

/// A number below `10 ^ k` has at most `k` digits.
proof fn lemma_digit_count_le(n: nat, k: nat)
    requires
        k >= 1,
        n < pow10(k),
    ensures
        digit_count(n) <= k,
    decreases n,
{
    if n < 10 {
    } else {
        assert(pow10(k) == 10 * pow10((k - 1) as nat));
        assert(k >= 2) by {
            if k == 1 {
                assert(pow10(1nat) == 10);
            }
        }
        assert(n / 10 < pow10((k - 1) as nat)) by (nonlinear_arith)
            requires
                n < 10 * pow10((k - 1) as nat),
                n >= 10,
        ;
        lemma_digit_count_le(n / 10, (k - 1) as nat);
    }
}

/// Number of decimal digits of a machine word.
fn count_digits(v: u64) -> (c: u64)
    ensures
        c as nat == digit_count(v as nat),
        1 <= c <= 20,
{
    proof {
        assert(pow10(20) == 100_000_000_000_000_000_000) by {
            reveal_with_fuel(pow10, 21);
        }
        lemma_digit_count_le(v as nat, 20);
    }
    let mut m = v;
    let mut c: u64 = 1;
    while m >= 10
        invariant
            digit_count(v as nat) == (c - 1) + digit_count(m as nat),
            1 <= c,
            digit_count(m as nat) >= 1,
            c - 1 + digit_count(m as nat) <= 20,
        decreases m,
    {
        m = m / 10;
        c = c + 1;
    }
    c
}

/// `10 ^ k` as a machine word.
fn pow10_exec(k: u64) -> (p: i128)
    requires
        k <= 20,
    ensures
        p == pow10(k as nat),
{
    proof {
        assert(pow10(20) == 100_000_000_000_000_000_000) by {
            reveal_with_fuel(pow10, 21);
        }
    }
    let mut p: i128 = 1;
    let mut i: u64 = 0;
    while i < k
        invariant
            i <= k <= 20,
            p == pow10(i as nat),
        decreases k - i,
    {
        proof {
            lemma_pow10_monotone(i as nat, 19);
            lemma_pow10_monotone((i + 1) as nat, 20);
            assert(pow10((i + 1) as nat) == 10 * pow10(i as nat));
            assert(pow10(20) == 100_000_000_000_000_000_000) by {
                reveal_with_fuel(pow10, 21);
            }
        }
        p = p * 10;
        i = i + 1;
    }
    p
}

/// Exact decimal concatenation of two integer values.
pub fn rat_concat(a: Rat, b: Rat) -> (r: Result<Rat, EvalError>)
    requires
        a.den >= 1,
        b.den >= 1,
    ensures
        r == concat_spec(a, b),
{
    if !(a.den == 1 && b.den == 1 && b.num >= 0) {
        return Err(EvalError::ConcatenationInvalid);
    }
    proof {
        assert(pow10(19) == 10_000_000_000_000_000_000) by {
            reveal_with_fuel(pow10, 20);
        }
        lemma_digit_count_le(b.num as nat, 19);
    }
    let digits = count_digits(b.num as u64);
    let shift = pow10_exec(digits);
    proof {
        lemma_pow10_monotone(digits as nat, 19);
        lemma_mul_bound(
            a.num as int,
            shift as int,
            0x8000_0000_0000_0000,
            10_000_000_000_000_000_000,
        );
    }
    let v: i128 = if a.num >= 0 {
        (a.num as i128) * shift + (b.num as i128)
    } else {
        (a.num as i128) * shift - (b.num as i128)
    };
    if v > i64::MAX as i128 || v < i64::MIN as i128 {
        return Err(EvalError::ArithmeticOutOfRange);
    }
    Ok(Rat { num: v as i64, den: 1 })
}

/// What one operator returns on two exact operands, `a` first.
pub fn apply_operator(op: Operator, a: Rat, b: Rat) -> (r: Result<Rat, EvalError>)
    requires
        a.den >= 1,
        b.den >= 1,
    ensures
        r == apply_operator_spec(op, a, b),
{
    match op {
        Operator::Addition => rat_add(a, b),
        Operator::Substraction => rat_sub(a, b),
        Operator::Multiplication => rat_mul(a, b),
        Operator::Division => rat_div(a, b),
        Operator::Concatenation => rat_concat(a, b),
        Operator::Power => rat_pow(a, b),
    }
}

/// Any representable result has a positive denominator.
pub proof fn lemma_apply_den_pos(op: Operator, a: Rat, b: Rat)
    ensures
        apply_operator_spec(op, a, b) matches Ok(r) ==> r.den >= 1,
{
}

/// A reduced representable fraction is a well-formed value.
proof fn lemma_norm_wf(n: int, d: int)
    requires
        d >= 1,
    ensures
        norm_spec(n, d) matches Ok(r) ==> r.wf(),
{
    lemma_canon_coprime(n, d);
}

/// Every power of a value with a positive denominator is well-formed.
proof fn lemma_pow_wf(a: Rat, k: nat)
    requires
        a.den >= 1,
    ensures
        pow_nat_spec(a, k) matches Ok(r) ==> r.wf(),
    decreases k,
{
    if k == 0 {
        lemma_gcd_one_right(1);
    } else {
        lemma_pow_wf(a, (k - 1) as nat);
        match pow_nat_spec(a, (k - 1) as nat) {
            Ok(p) => {
                lemma_mul_pos(p.den as int, a.den as int);
                lemma_norm_wf((p.num as int) * (a.num as int), (p.den as int) * (a.den as int));
            },
            Err(_) => {},
        }
    }
}

/// Every representable result of an operation on well-formed values is
/// itself well-formed: in lowest terms, with a positive denominator.
pub proof fn lemma_apply_wf(op: Operator, a: Rat, b: Rat)
    requires
        a.wf(),
        b.wf(),
    ensures
        apply_operator_spec(op, a, b) matches Ok(r) ==> r.wf(),
{
    lemma_mul_pos(a.den as int, b.den as int);
    match op {
        Operator::Addition => {
            lemma_norm_wf(
                (a.num as int) * (b.den as int) + (b.num as int) * (a.den as int),
                (a.den as int) * (b.den as int),
            );
        },
        Operator::Substraction => {
            lemma_norm_wf(
                (a.num as int) * (b.den as int) - (b.num as int) * (a.den as int),
                (a.den as int) * (b.den as int),
            );
        },
        Operator::Multiplication => {
            lemma_norm_wf((a.num as int) * (b.num as int), (a.den as int) * (b.den as int));
        },
        Operator::Division => {
            if b.num != 0 {
                assert(div_raw_den(a, b) >= 1) by {
                    if b.num >= 1 {
                        lemma_mul_pos(a.den as int, b.num as int);
                    } else {
                        lemma_mul_pos(a.den as int, -(b.num as int));
                    }
                }
                lemma_norm_wf(div_raw_num(a, b), div_raw_den(a, b));
            }
        },
        Operator::Concatenation => {
            lemma_gcd_one_right(iabs(concat_value(a, b)));
        },
        Operator::Power => {
            if b.den == 1 {
                if b.num >= 0 {
                    lemma_pow_wf(a, iabs(b.num as int));
                } else if a.num != 0 {
                    match invert_spec(a) {
                        Ok(base) => {
                            assert(base.wf()) by {
                                lemma_gcd_comm(iabs(a.num as int), a.den as nat);
                                assert(iabs(base.num as int) == a.den as nat);
                                assert(base.den as nat == iabs(a.num as int));
                            }
                            lemma_pow_wf(base, iabs(b.num as int));
                        },
                        Err(_) => {},
                    }
                }
            }
        },
    }
}

/// Two well-formed values that denote the same rational number are the
/// same value; in particular they form the same uniqueness-memo key.
pub proof fn lemma_wf_value_unique(v1: Rat, v2: Rat)
    requires
        v1.wf(),
        v2.wf(),
        (v1.num as int) * (v2.den as int) == (v2.num as int) * (v1.den as int),
    ensures
        v1 == v2,
{
    lemma_lowest_terms_unique(v1.num as int, v1.den as int, v2.num as int, v2.den as int);
}

} // verus!
