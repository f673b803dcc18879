//! Folding of the constant expressions written as annotation arguments:
//! integer, boolean and string literals, float literals held exactly as
//! fractions, and arithmetic, negation and `!` on them.

use vstd::prelude::*;
use crate::ast::{BinaryOp, Expression, Literal, UnaryOp};
use crate::span::Span;

verus! {

/// A compile-time constant. A float is the fraction `numerator / denominator`
/// (the denominator positive), computed exactly.
#[derive(Debug, Clone)]
pub enum ConstValue {
    Int(i64),
    Float { numerator: i64, denominator: i64 },
    Bool(bool),
    String(String),
}

pub open spec fn fits_i64(x: int) -> bool {
    i64::MIN <= x <= i64::MAX
}

/// `10` to the power `e`.
pub open spec fn ten_pow(e: nat) -> int
    decreases e,
{
    if e == 0 {
        1
    } else {
        10 * ten_pow((e - 1) as nat)
    }
}

pub open spec fn is_digit(c: char) -> bool {
    '0' <= c <= '9'
}

/// The number that the decimal digits `s` write.
pub open spec fn digits_value(s: Seq<char>) -> int
    decreases s.len(),
{
    if s.len() == 0 {
        0
    } else {
        digits_value(s.drop_last()) * 10 + (s.last() as int - '0' as int)
    }
}

/// Whether `s` is digits, a point at position `k`, and digits, with at
/// least one digit on each side.
pub open spec fn point_at(s: Seq<char>, k: int) -> bool {
    &&& 0 < k < s.len() - 1
    &&& s[k] == '.'
    &&& forall|i: int| 0 <= i < s.len() && i != k ==> is_digit(#[trigger] s[i])
}

/// The float that the text `s` (`digits.digits`) writes, as a fraction whose
/// denominator is a power of ten, when both parts fit in 64 bits.
pub open spec fn float_text_value(s: Seq<char>) -> Option<ConstValue> {
    if exists|k: int| point_at(s, k) {
        let k = choose|k: int| point_at(s, k);
        let f = (s.len() - k - 1) as nat;
        let n = digits_value(s.take(k)) * ten_pow(f) + digits_value(s.skip(k + 1));
        if fits_i64(n) && fits_i64(ten_pow(f)) {
            Some(ConstValue::Float { numerator: n as i64, denominator: ten_pow(f) as i64 })
        } else {
            None
        }
    } else {
        None
    }
}

/// The constant that literal `l` writes.
pub open spec fn literal_value(l: Literal) -> Option<ConstValue> {
    match l {
        Literal::Int(v) => Some(ConstValue::Int(v)),
        Literal::Float(t) => float_text_value(t@),
        Literal::Bool(b) => Some(ConstValue::Bool(b)),
        Literal::String(s) => Some(ConstValue::String(s)),
    }
}

/// `a / b` rounded toward zero, as integer division in Rust.
pub open spec fn trunc_div(a: int, b: int) -> int {
    let q = abs(a) / abs(b);
    if (a < 0) == (b < 0) {
        q
    } else {
        -q
    }
}

/// The remainder of `a / b` rounded toward zero: it has the sign of `a`.
pub open spec fn trunc_rem(a: int, b: int) -> int {
    let r = abs(a) % abs(b);
    if a < 0 {
        -r
    } else {
        r
    }
}

pub open spec fn abs(x: int) -> int {
    if x < 0 {
        -x
    } else {
        x
    }
}

/// The fraction `n / d`, when both fit in 64 bits.
pub open spec fn fraction(n: int, d: int) -> Option<ConstValue> {
    if fits_i64(n) && fits_i64(d) {
        Some(ConstValue::Float { numerator: n as i64, denominator: d as i64 })
    } else {
        None
    }
}

/// `v` as a fraction: an integer over one, or a float's own fraction.
pub open spec fn as_fraction(v: ConstValue) -> Option<(int, int)> {
    match v {
        ConstValue::Int(a) => Some((a as int, 1)),
        ConstValue::Float { numerator, denominator } => Some((numerator as int, denominator as int)),
        _ => None,
    }
}

/// Operator `op` on the integers `a` and `b`: the arithmetic of Rust's `i64`,
/// with no value where it would overflow or divide by zero.
pub open spec fn int_binary(a: int, b: int, op: BinaryOp) -> Option<ConstValue> {
    let r = match op {
        BinaryOp::Add => Some(a + b),
        BinaryOp::Subtract => Some(a - b),
        BinaryOp::Multiply => Some(a * b),
        BinaryOp::Divide => if b != 0 {
            Some(trunc_div(a, b))
        } else {
            None
        },
        BinaryOp::Modulo => if b != 0 && fits_i64(trunc_div(a, b)) {
            Some(trunc_rem(a, b))
        } else {
            None
        },
        _ => None,
    };
    match r {
        Some(x) => if fits_i64(x) {
            Some(ConstValue::Int(x as i64))
        } else {
            None
        },
        None => None,
    }
}

/// Operator `op` on two constants: integer arithmetic on two integers;
/// exact fraction arithmetic where a float is involved (an integer taken as
/// itself over one), with the remainder only of two floats; nothing on
/// booleans and strings or for a comparison or a logical operator.
pub open spec fn binary_value(l: ConstValue, r: ConstValue, op: BinaryOp) -> Option<ConstValue> {
    match (l, r) {
        (ConstValue::Int(a), ConstValue::Int(b)) => int_binary(a as int, b as int, op),
        _ => match (as_fraction(l), as_fraction(r)) {
            (Some((n1, d1)), Some((n2, d2))) => match op {
                BinaryOp::Add => fraction(n1 * d2 + n2 * d1, d1 * d2),
                BinaryOp::Subtract => fraction(n1 * d2 - n2 * d1, d1 * d2),
                BinaryOp::Multiply => fraction(n1 * n2, d1 * d2),
                BinaryOp::Divide => if n2 == 0 {
                    None
                } else if n2 < 0 {
                    fraction(-(n1 * d2), (-n2) * d1)
                } else {
                    fraction(n1 * d2, n2 * d1)
                },
                BinaryOp::Modulo => if l is Float && r is Float && n2 != 0 {
                    fraction(trunc_rem(n1 * d2, n2 * d1), d1 * d2)
                } else {
                    None
                },
                _ => None,
            },
            _ => None,
        },
    }
}

/// Operator `op` on a constant: negation of a number, `!` of a boolean.
pub open spec fn unary_value(v: ConstValue, op: UnaryOp) -> Option<ConstValue> {
    match (op, v) {
        (UnaryOp::Negate, ConstValue::Int(x)) => if fits_i64(-(x as int)) {
            Some(ConstValue::Int((-(x as int)) as i64))
        } else {
            None
        },
        (UnaryOp::Negate, ConstValue::Float { numerator, denominator }) => fraction(
            -(numerator as int),
            denominator as int,
        ),
        (UnaryOp::Not, ConstValue::Bool(b)) => Some(ConstValue::Bool(!b)),
        _ => None,
    }
}

/// The constant that expression `e` folds to: literals, and binary and
/// unary operators on constants; any other expression is not constant.
pub open spec fn const_value(e: Expression) -> Option<ConstValue>
    decreases e,
{
    match e {
        Expression::Literal(l, _) => literal_value(l),
        Expression::Binary { left, operator, right, .. } => match (const_value(*left), const_value(*right)) {
            (Some(l), Some(r)) => binary_value(l, r, operator),
            _ => None,
        },
        Expression::Unary { operator, operand, .. } => match const_value(*operand) {
            Some(v) => unary_value(v, operator),
            None => None,
        },
        _ => None,
    }
}

/// The integer constant `x`.
pub open spec fn int_const(x: i64) -> ConstValue {
    ConstValue::Int(x)
}

/// The expression `left op right`.
pub open spec fn binary_expr(left: Expression, op: BinaryOp, right: Expression, span: Span) -> Expression {
    Expression::Binary { left: Box::new(left), operator: op, right: Box::new(right), span }
}

/// Integer arithmetic on constants is the arithmetic of the integers: the
/// sum, difference and product of the operands when they fit in 64 bits
/// (nothing is folded otherwise); division and remainder round toward zero,
/// so that `left == quotient * right + remainder` with the remainder smaller
/// than the divisor and of the sign of `left`; division by zero, comparisons
/// and logical operators are not folded.
pub proof fn lemma_integer_folding(left: Expression, right: Expression, span: Span, a: i64, b: i64)
    requires
        const_value(left) == Some(ConstValue::Int(a)),
        const_value(right) == Some(ConstValue::Int(b)),
    ensures
        const_value(binary_expr(left, BinaryOp::Add, right, span)) == if fits_i64(a + b) {
            Some(ConstValue::Int((a + b) as i64))
        } else {
            None
        },
        const_value(binary_expr(left, BinaryOp::Subtract, right, span)) == if fits_i64(a - b) {
            Some(ConstValue::Int((a - b) as i64))
        } else {
            None
        },
        const_value(binary_expr(left, BinaryOp::Multiply, right, span)) == if fits_i64(a * b) {
            Some(ConstValue::Int((a * b) as i64))
        } else {
            None
        },
        b == 0 ==> const_value(binary_expr(left, BinaryOp::Divide, right, span)) is None
            && const_value(binary_expr(left, BinaryOp::Modulo, right, span)) is None,
        b != 0 && !(a == i64::MIN && b == -1) ==> exists|q: i64, r: i64|
            #![trigger int_const(q), int_const(r)]
            const_value(binary_expr(left, BinaryOp::Divide, right, span)) == Some(int_const(q))
                && const_value(binary_expr(left, BinaryOp::Modulo, right, span)) == Some(int_const(r))
                && a == q * b + r && abs(r as int) < abs(b as int)
                && (r == 0 || (r < 0) == (a < 0)),
        const_value(binary_expr(left, BinaryOp::Less, right, span)) is None,
        const_value(binary_expr(left, BinaryOp::Equal, right, span)) is None,
        const_value(binary_expr(left, BinaryOp::LogicAnd, right, span)) is None,
{
    if b != 0 && !(a == i64::MIN && b == -1) {
        let aa = abs(a as int);
        let ab = abs(b as int);
        let qq = aa / ab;
        let rr = aa % ab;
        vstd::arithmetic::div_mod::lemma_fundamental_div_mod(aa, ab);
        vstd::arithmetic::div_mod::lemma_mod_pos_bound(aa, ab);
        assert(0 <= qq) by (nonlinear_arith)
            requires
                aa == ab * qq + rr,
                0 <= rr < ab,
                0 <= aa,
        ;
        assert(qq <= aa) by (nonlinear_arith)
            requires
                aa == ab * qq + rr,
                0 <= rr < ab,
                1 <= ab,
                0 <= qq,
        ;
        let q = trunc_div(a as int, b as int);
        let r = trunc_rem(a as int, b as int);
        assert(a == q * b + r) by (nonlinear_arith)
            requires
                aa == ab * qq + rr,
                aa == abs(a as int),
                ab == abs(b as int),
                q == (if (a < 0) == (b < 0) { qq } else { -qq }),
                r == (if a < 0 { -rr } else { rr }),
        ;
        assert(fits_i64(q)) by {
            if qq == aa && ab == 1 {
            }
        }
        assert(fits_i64(r));
        assert(const_value(binary_expr(left, BinaryOp::Divide, right, span)) == Some(ConstValue::Int(q as i64)));
        assert(const_value(binary_expr(left, BinaryOp::Modulo, right, span)) == Some(ConstValue::Int(r as i64)));
        let _ = int_const(q as i64);
        let _ = int_const(r as i64);
    }
}

/// Negation of an integer constant gives its negative (when that fits), and
/// `!` of a boolean constant its negation.
pub proof fn lemma_unary_folding(operand: Expression, span: Span)
    ensures
        const_value(operand) matches Some(ConstValue::Int(a)) ==> const_value(
            Expression::Unary { operator: UnaryOp::Negate, operand: Box::new(operand), span },
        ) == if fits_i64(-(a as int)) {
            Some(ConstValue::Int((-(a as int)) as i64))
        } else {
            None
        },
        const_value(operand) matches Some(ConstValue::Bool(x)) ==> const_value(
            Expression::Unary { operator: UnaryOp::Not, operand: Box::new(operand), span },
        ) == Some(ConstValue::Bool(!x)),
{
}

/// Whether constant `v` is a number equal to the fraction `num / den`.
pub open spec fn equals_fraction(v: ConstValue, num: int, den: int) -> bool {
    match v {
        ConstValue::Int(a) => a * den == num,
        ConstValue::Float { numerator, denominator } => numerator * den == num * denominator && denominator > 0,
        _ => false,
    }
}

/// Arithmetic where a float is involved is exact arithmetic on fractions:
/// where it folds, the result equals the sum, difference, product or
/// quotient of the operands' values.
pub proof fn lemma_fraction_folding(left: Expression, right: Expression, span: Span, n1: int, d1: int, n2: int, d2: int)
    requires
        const_value(left) matches Some(l) && equals_fraction(l, n1, d1) && as_fraction(l) == Some((n1, d1)),
        const_value(right) matches Some(r) && equals_fraction(r, n2, d2) && as_fraction(r) == Some((n2, d2)),
        const_value(left) matches Some(ConstValue::Float { .. }) || const_value(right) matches Some(
            ConstValue::Float { .. },
        ),
        d1 > 0,
        d2 > 0,
    ensures
        const_value(binary_expr(left, BinaryOp::Add, right, span)) matches Some(v) ==> equals_fraction(
            v,
            n1 * d2 + n2 * d1,
            d1 * d2,
        ),
        const_value(binary_expr(left, BinaryOp::Subtract, right, span)) matches Some(v) ==> equals_fraction(
            v,
            n1 * d2 - n2 * d1,
            d1 * d2,
        ),
        const_value(binary_expr(left, BinaryOp::Multiply, right, span)) matches Some(v) ==> equals_fraction(
            v,
            n1 * n2,
            d1 * d2,
        ),
        n2 != 0 ==> (const_value(binary_expr(left, BinaryOp::Divide, right, span)) matches Some(v) ==> equals_fraction(
            v,
            n1 * d2,
            n2 * d1,
        )),
{
    assert(d1 * d2 > 0) by (nonlinear_arith)
        requires
            d1 > 0,
            d2 > 0,
    ;
    assert(abs(n2) * d1 > 0 || n2 == 0) by (nonlinear_arith)
        requires
            d1 > 0,
    ;
    assert((-(n1 * d2)) * (n2 * d1) == (n1 * d2) * ((-n2) * d1)) by (nonlinear_arith);
    assert(forall|x: int, y: int| #![trigger x * y] x * y == y * x) by (nonlinear_arith);
}

/// Whether every float in `v` has a positive denominator.
pub open spec fn well_formed(v: ConstValue) -> bool {
    match v {
        ConstValue::Float { denominator, .. } => denominator > 0,
        _ => true,
    }
}

proof fn lemma_ten_pow_positive(e: nat)
    ensures
        ten_pow(e) >= 1,
    decreases e,
{
    if e > 0 {
        lemma_ten_pow_positive((e - 1) as nat);
    }
}

proof fn lemma_digits_nonneg(s: Seq<char>)
    requires
        forall|i: int| 0 <= i < s.len() ==> is_digit(#[trigger] s[i]),
    ensures
        digits_value(s) >= 0,
    decreases s.len(),
{
    if s.len() > 0 {
        lemma_digits_nonneg(s.drop_last());
    }
}

proof fn lemma_digits_grow(s: Seq<char>, m: int)
    requires
        0 <= m < s.len(),
        forall|i: int| 0 <= i < s.len() ==> is_digit(#[trigger] s[i]),
    ensures
        digits_value(s.take(m)) <= digits_value(s.take(m + 1)),
{
    assert(s.take(m + 1).drop_last() =~= s.take(m));
    lemma_digits_nonneg(s.take(m));
}

proof fn lemma_digits_prefix_bound(s: Seq<char>, m: int)
    requires
        0 <= m <= s.len(),
        forall|i: int| 0 <= i < s.len() ==> is_digit(#[trigger] s[i]),
    ensures
        digits_value(s.take(m)) <= digits_value(s),
    decreases s.len() - m,
{
    if m < s.len() {
        lemma_digits_grow(s, m);
        lemma_digits_prefix_bound(s, m + 1);
    } else {
        assert(s.take(m) =~= s);
    }
}

proof fn lemma_ten_pow_grow(e: nat, f: nat)
    requires
        e <= f,
    ensures
        ten_pow(e) <= ten_pow(f),
    decreases f,
{
    if e < f {
        lemma_ten_pow_grow(e, (f - 1) as nat);
        lemma_ten_pow_positive((f - 1) as nat);
    }
}

/// The value of the digits `chars[lo..hi]`, if it fits in 64 bits.
fn digits_in(chars: &Vec<char>, lo: usize, hi: usize) -> (r: Option<i64>)
    requires
        lo <= hi <= chars@.len(),
        forall|i: int| lo <= i < hi ==> is_digit(#[trigger] chars@[i]),
    ensures
        match r {
            Some(v) => v == digits_value(chars@.subrange(lo as int, hi as int)),
            None => !fits_i64(digits_value(chars@.subrange(lo as int, hi as int))),
        },
{
    let ghost s = chars@.subrange(lo as int, hi as int);
    let mut v: i64 = 0;
    let mut i = lo;
    while i < hi
        invariant
            lo <= i <= hi <= chars@.len(),
            s == chars@.subrange(lo as int, hi as int),
            forall|j: int| lo <= j < hi ==> is_digit(#[trigger] chars@[j]),
            v == digits_value(s.take(i - lo)),
            v >= 0,
        decreases hi - i,
    {
        proof {
            assert(s.take(i - lo + 1).drop_last() =~= s.take(i - lo));
            assert(s.take(i - lo + 1).last() == chars@[i as int]);
        }
        let d = (chars[i] as u32 - '0' as u32) as i64;
        if v > (i64::MAX - d) / 10 {
            proof {
                assert forall|j: int| 0 <= j < s.len() implies is_digit(#[trigger] s[j]) by {
                    assert(s[j] == chars@[lo + j]);
                }
                lemma_digits_prefix_bound(s, i - lo + 1);
                assert(v * 10 + d > i64::MAX) by (nonlinear_arith)
                    requires
                        v > (i64::MAX - d) / 10,
                        0 <= d <= 9,
                ;
            }
            return None;
        }
        v = v * 10 + d;
        i = i + 1;
    }
    proof {
        assert(s.take(hi - lo) =~= s);
    }
    Some(v)
}

/// `10` to the power `e`, if it fits in 64 bits.
fn ten_pow_i64(e: usize) -> (r: Option<i64>)
    ensures
        match r {
            Some(v) => v == ten_pow(e as nat) && v >= 1,
            None => !fits_i64(ten_pow(e as nat)),
        },
{
    let mut den: i64 = 1;
    let mut k: usize = 0;
    while k < e
        invariant
            k <= e,
            den == ten_pow(k as nat),
            den >= 1,
        decreases e - k,
    {
        if den > i64::MAX / 10 {
            proof {
                lemma_ten_pow_grow((k + 1) as nat, e as nat);
            }
            return None;
        }
        den = den * 10;
        k = k + 1;
    }
    Some(den)
}

/// The fraction that float text `t` (`digits.digits`) writes.
pub fn float_text_fraction(t: &String) -> (r: Option<ConstValue>)
    ensures
        r == float_text_value(t@),
        r matches Some(v) ==> well_formed(v),
{
    let chars = crate::text::chars_of(t.as_str());
    let n = chars.len();
    let mut k: usize = 0;
    let mut point: Option<usize> = None;
    let mut ok = true;
    while k < n
        invariant
            chars@ == t@,
            n == chars@.len(),
            k <= n,
            ok ==> match point {
                Some(p) => p < k && chars@[p as int] == '.' && forall|i: int|
                    0 <= i < k && i != p ==> is_digit(#[trigger] chars@[i]),
                None => forall|i: int| 0 <= i < k ==> is_digit(#[trigger] chars@[i]),
            },
            !ok ==> !exists|p: int| point_at(chars@, p),
        decreases n - k,
    {
        let c = chars[k];
        if c == '.' {
            if point.is_some() {
                if ok {
                    proof {
                        let p = point->0;
                        assert forall|q: int| !point_at(chars@, q) by {
                            if point_at(chars@, q) {
                                if q != p {
                                    assert(is_digit(chars@[p as int]));
                                } else {
                                    assert(is_digit(chars@[k as int]));
                                }
                            }
                        }
                    }
                }
                ok = false;
            } else {
                point = Some(k);
            }
        } else if !('0' <= c && c <= '9') {
            if ok {
                proof {
                    assert forall|q: int| !point_at(chars@, q) by {
                        if point_at(chars@, q) {
                            assert(q != k);
                            assert(is_digit(chars@[k as int]));
                        }
                    }
                }
            }
            ok = false;
        }
        k = k + 1;
    }
    if !ok {
        return None;
    }
    let p = match point {
        Some(p) => p,
        None => {
            proof {
                assert forall|q: int| !point_at(chars@, q) by {
                    if point_at(chars@, q) {
                        assert(is_digit(chars@[q]));
                    }
                }
            }
            return None;
        },
    };
    if p == 0 || p + 1 >= n {
        proof {
            assert forall|q: int| !point_at(chars@, q) by {
                if point_at(chars@, q) && q != p {
                    assert(is_digit(chars@[p as int]));
                }
            }
        }
        return None;
    }
    proof {
        assert(point_at(chars@, p as int));
        assert forall|q: int| point_at(chars@, q) implies q == p by {
            if q != p {
                assert(is_digit(chars@[p as int]));
            }
        }
    }
    let ghost s = chars@;
    let ghost f = (n - p - 1) as nat;
    proof {
        assert(s.take(p as int) =~= s.subrange(0, p as int));
        assert(s.skip(p + 1) =~= s.subrange(p + 1, n as int));
        lemma_digits_nonneg(s.take(p as int));
        lemma_digits_nonneg(s.skip(p + 1));
        lemma_ten_pow_positive(f);
    }
    let int_part = match digits_in(&chars, 0, p) {
        Some(v) => v,
        None => {
            proof {
                lemma_digits_nonneg(s.skip(p + 1));
                assert(digits_value(s.take(p as int)) * ten_pow(f) >= digits_value(s.take(p as int))) by (nonlinear_arith)
                    requires
                        ten_pow(f) >= 1,
                        digits_value(s.take(p as int)) >= 0,
                ;
            }
            return None;
        },
    };
    let frac_part = match digits_in(&chars, p + 1, n) {
        Some(v) => v,
        None => {
            proof {
                assert(digits_value(s.take(p as int)) * ten_pow(f) >= 0) by (nonlinear_arith)
                    requires
                        ten_pow(f) >= 1,
                        digits_value(s.take(p as int)) >= 0,
                ;
            }
            return None;
        },
    };
    let den = match ten_pow_i64(n - p - 1) {
        Some(d) => d,
        None => {
            return None;
        },
    };
    proof {
        assert(0 <= int_part * den <= 0x7fff_ffff_ffff_ffff * 0x7fff_ffff_ffff_ffff) by (nonlinear_arith)
            requires
                0 <= int_part <= 0x7fff_ffff_ffff_ffff,
                1 <= den <= 0x7fff_ffff_ffff_ffff,
        ;
    }
    let num = (int_part as i128) * (den as i128) + (frac_part as i128);
    if num > i64::MAX as i128 {
        return None;
    }
    Some(ConstValue::Float { numerator: num as i64, denominator: den })
}

fn fraction_exec(n: i128, d: i128) -> (r: Option<ConstValue>)
    ensures
        r == fraction(n as int, d as int),
        d >= 1 ==> (r matches Some(x) ==> well_formed(x)),
{
    if n < i64::MIN as i128 || n > i64::MAX as i128 || d < i64::MIN as i128 || d > i64::MAX as i128 {
        None
    } else {
        Some(ConstValue::Float { numerator: n as i64, denominator: d as i64 })
    }
}

/// `a / b` and the remainder, rounded toward zero, for `b` not zero.
fn trunc_div_rem(a: i128, b: i128) -> (r: (i128, i128))
    requires
        b != 0,
        i128::MIN < a,
        i128::MIN < b,
    ensures
        r.0 == trunc_div(a as int, b as int),
        r.1 == trunc_rem(a as int, b as int),
{
    let ua: u128 = if a < 0 { (-a) as u128 } else { a as u128 };
    let ub: u128 = if b < 0 { (-b) as u128 } else { b as u128 };
    let q = ua / ub;
    let m = ua % ub;
    proof {
        assert(q <= ua) by (nonlinear_arith)
            requires
                ub >= 1,
                q == ua / ub,
        ;
    }
    let qs: i128 = if (a < 0) == (b < 0) { q as i128 } else { -(q as i128) };
    let rs: i128 = if a < 0 { -(m as i128) } else { m as i128 };
    (qs, rs)
}

/// Folds operator `op` on two constants (see `binary_value`).
pub fn eval_binary_const(l: &ConstValue, r: &ConstValue, op: BinaryOp) -> (v: Option<ConstValue>)
    requires
        well_formed(*l),
        well_formed(*r),
    ensures
        v == binary_value(*l, *r, op),
        v matches Some(x) ==> well_formed(x),
{
    if let (ConstValue::Int(a), ConstValue::Int(b)) = (l, r) {
        let a = *a as i128;
        let b = *b as i128;
        let x: i128 = match op {
            BinaryOp::Add => a + b,
            BinaryOp::Subtract => a - b,
            BinaryOp::Multiply => {
                proof {
                    assert(-0x8000_0000_0000_0000 * 0x8000_0000_0000_0000 <= a * b <= 0x8000_0000_0000_0000 * 0x8000_0000_0000_0000) by (nonlinear_arith)
                        requires
                            -0x8000_0000_0000_0000 <= a <= 0x7fff_ffff_ffff_ffff,
                            -0x8000_0000_0000_0000 <= b <= 0x7fff_ffff_ffff_ffff,
                    ;
                }
                a * b
            },
            BinaryOp::Divide => {
                if b == 0 {
                    return None;
                }
                trunc_div_rem(a, b).0
            },
            BinaryOp::Modulo => {
                if b == 0 {
                    return None;
                }
                let (q, m) = trunc_div_rem(a, b);
                if q < i64::MIN as i128 || q > i64::MAX as i128 {
                    return None;
                }
                m
            },
            _ => {
                return None;
            },
        };
        if x < i64::MIN as i128 || x > i64::MAX as i128 {
            return None;
        }
        return Some(ConstValue::Int(x as i64));
    }
    let (n1, d1) = match l {
        ConstValue::Int(a) => (*a as i128, 1i128),
        ConstValue::Float { numerator, denominator } => (*numerator as i128, *denominator as i128),
        _ => {
            return None;
        },
    };
    let (n2, d2) = match r {
        ConstValue::Int(a) => (*a as i128, 1i128),
        ConstValue::Float { numerator, denominator } => (*numerator as i128, *denominator as i128),
        _ => {
            return None;
        },
    };
    proof {
        assert(-0x8000_0000_0000_0000 * 0x7fff_ffff_ffff_ffff <= n1 * d2 <= 0x8000_0000_0000_0000 * 0x7fff_ffff_ffff_ffff) by (nonlinear_arith)
            requires
                -0x8000_0000_0000_0000 <= n1 <= 0x7fff_ffff_ffff_ffff,
                1 <= d2 <= 0x7fff_ffff_ffff_ffff,
        ;
        assert(-0x8000_0000_0000_0000 * 0x7fff_ffff_ffff_ffff <= n2 * d1 <= 0x8000_0000_0000_0000 * 0x7fff_ffff_ffff_ffff) by (nonlinear_arith)
            requires
                -0x8000_0000_0000_0000 <= n2 <= 0x7fff_ffff_ffff_ffff,
                1 <= d1 <= 0x7fff_ffff_ffff_ffff,
        ;
        assert(1 <= d1 * d2 <= 0x7fff_ffff_ffff_ffff * 0x7fff_ffff_ffff_ffff) by (nonlinear_arith)
            requires
                1 <= d1 <= 0x7fff_ffff_ffff_ffff,
                1 <= d2 <= 0x7fff_ffff_ffff_ffff,
        ;
        assert(-0x8000_0000_0000_0000 * 0x7fff_ffff_ffff_ffff <= n1 * n2 <= 0x8000_0000_0000_0000 * 0x8000_0000_0000_0000) by (nonlinear_arith)
            requires
                -0x8000_0000_0000_0000 <= n1 <= 0x7fff_ffff_ffff_ffff,
                -0x8000_0000_0000_0000 <= n2 <= 0x7fff_ffff_ffff_ffff,
        ;
    }
    match op {
        BinaryOp::Add => fraction_exec(n1 * d2 + n2 * d1, d1 * d2),
        BinaryOp::Subtract => fraction_exec(n1 * d2 - n2 * d1, d1 * d2),
        BinaryOp::Multiply => fraction_exec(n1 * n2, d1 * d2),
        BinaryOp::Divide => {
            if n2 == 0 {
                None
            } else if n2 < 0 {
                proof {
                    assert(1 <= (-n2) * d1 <= 0x8000_0000_0000_0000 * 0x7fff_ffff_ffff_ffff) by (nonlinear_arith)
                        requires
                            -0x8000_0000_0000_0000 <= n2 < 0,
                            1 <= d1 <= 0x7fff_ffff_ffff_ffff,
                    ;
                }
                fraction_exec(-(n1 * d2), (-n2) * d1)
            } else {
                proof {
                    assert(1 <= n2 * d1) by (nonlinear_arith)
                        requires
                            n2 >= 1,
                            d1 >= 1,
                    ;
                }
                fraction_exec(n1 * d2, n2 * d1)
            }
        },
        BinaryOp::Modulo => {
            let both_float = matches!(l, ConstValue::Float { .. }) && matches!(r, ConstValue::Float { .. });
            if both_float && n2 != 0 {
                proof {
                    assert(n2 * d1 != 0) by (nonlinear_arith)
                        requires
                            n2 != 0,
                            d1 >= 1,
                    ;
                }
                let (_, m) = trunc_div_rem(n1 * d2, n2 * d1);
                fraction_exec(m, d1 * d2)
            } else {
                None
            }
        },
        _ => None,
    }
}

/// Folds operator `op` on a constant (see `unary_value`).
pub fn eval_unary_const(v: &ConstValue, op: UnaryOp) -> (r: Option<ConstValue>)
    requires
        well_formed(*v),
    ensures
        r == unary_value(*v, op),
        r matches Some(x) ==> well_formed(x),
{
    match (op, v) {
        (UnaryOp::Negate, ConstValue::Int(x)) => {
            if *x == i64::MIN {
                None
            } else {
                Some(ConstValue::Int(-*x))
            }
        },
        (UnaryOp::Negate, ConstValue::Float { numerator, denominator }) => {
            fraction_exec(-(*numerator as i128), *denominator as i128)
        },
        (UnaryOp::Not, ConstValue::Bool(b)) => Some(ConstValue::Bool(!*b)),
        _ => None,
    }
}

/// Folds an annotation argument to a compile-time constant: the value of
/// `const_value`, or `None` where the expression is not constant (it is then
/// compiled to a method that computes it).
pub fn eval_metadata_const(expr: &Expression) -> (r: Option<ConstValue>)
    ensures
        r == const_value(*expr),
        r matches Some(x) ==> well_formed(x),
    decreases expr,
{
    match expr {
        Expression::Literal(Literal::Int(v), _) => Some(ConstValue::Int(*v)),
        Expression::Literal(Literal::Float(t), _) => float_text_fraction(t),
        Expression::Literal(Literal::Bool(b), _) => Some(ConstValue::Bool(*b)),
        Expression::Literal(Literal::String(s), _) => Some(ConstValue::String(s.clone())),
        Expression::Binary { left, operator, right, .. } => {
            let l = eval_metadata_const(left);
            let r = eval_metadata_const(right);
            match (l, r) {
                (Some(a), Some(b)) => eval_binary_const(&a, &b, *operator),
                _ => None,
            }
        },
        Expression::Unary { operator, operand, .. } => {
            match eval_metadata_const(operand) {
                Some(v) => eval_unary_const(&v, *operator),
                None => None,
            }
        },
        _ => None,
    }
}

} // verus!
