//! Parsing the numeric grid: a token stream, delimited by whitespace or
//! commas, whose first token is `n` followed by `n * n` weights in
//! row-major order. Weights are decimal numbers, with an optional
//! fraction and exponent, read into fixed-point thousandths.

use vstd::prelude::*;
use crate::graph::Graph;

verus! {

/// What stops the grid from loading, and where the spec pins each
/// variant down exactly.
#[derive(PartialEq, Eq, Structural, Clone, Copy, Debug)]
pub enum InputError {
    /// Only separators remain where a token was required.
    UnexpectedEof,
    /// The token at hand is not a well-formed number.
    MalformedNumber,
    /// The weight is negative, which the grid does not allow.
    NegativeWeight,
    /// The number does not fit the fixed-point range.
    Overflow,
    /// The declared node count is beyond what a flat table can hold.
    TooLarge,
}

/// A token separator: a comma or ASCII whitespace.
pub open spec fn is_sep(b: u8) -> bool {
    b == 44 || b == 32 || b == 9 || b == 10 || b == 13 || b == 12
}

/// An ASCII decimal digit.
pub open spec fn is_digit(b: u8) -> bool {
    48 <= b <= 57
}

/// A character that can appear in a weight token: a digit, `.`, `e`,
/// `E`, `+` or `-`.
pub open spec fn is_weight_char(b: u8) -> bool {
    is_digit(b) || b == 46 || b == 101 || b == 69 || b == 43 || b == 45
}

/// The first position at or after `pos` holding a non-separator, or the
/// end of the input.
pub open spec fn skip_end(s: Seq<u8>, pos: int) -> int
    decreases s.len() - pos,
{
    if pos < 0 || pos >= s.len() {
        pos
    } else if is_sep(s[pos]) {
        skip_end(s, pos + 1)
    } else {
        pos
    }
}

/// The first position at or after `pos` holding a non-digit, or the end
/// of the input.
pub open spec fn digit_run_end(s: Seq<u8>, pos: int) -> int
    decreases s.len() - pos,
{
    if pos < 0 || pos >= s.len() {
        pos
    } else if is_digit(s[pos]) {
        digit_run_end(s, pos + 1)
    } else {
        pos
    }
}

/// The first position at or after `pos` holding a character that cannot
/// appear in a weight token, or the end of the input.
pub open spec fn token_end(s: Seq<u8>, pos: int) -> int
    decreases s.len() - pos,
{
    if pos < 0 || pos >= s.len() {
        pos
    } else if is_weight_char(s[pos]) {
        token_end(s, pos + 1)
    } else {
        pos
    }
}

/// The value of the decimal digits from `start` to `end`.
pub open spec fn digits_value(s: Seq<u8>, start: int, end: int) -> int
    decreases end - start,
{
    if end <= start {
        0
    } else {
        digits_value(s, start, end - 1) * 10 + (s[end - 1] - 48)
    }
}

/// Ten to the `e`.
pub open spec fn pow10(e: nat) -> int
    decreases e,
{
    if e == 0 {
        1
    } else {
        10 * pow10((e - 1) as nat)
    }
}

/// A digit string's value is non-negative.
pub proof fn lemma_digits_value_nonneg(s: Seq<u8>, start: int, end: int)
    requires
        forall|i: int| start <= i < end ==> is_digit(#[trigger] s[i]),
    ensures
        0 <= digits_value(s, start, end),
    decreases end - start,
{
    if end > start {
        lemma_digits_value_nonneg(s, start, end - 1);
    }
}

/// Extending a digit string never shrinks its value.
pub proof fn lemma_digits_value_mono(s: Seq<u8>, start: int, e1: int, e2: int)
    requires
        e1 <= e2,
        forall|i: int| start <= i < e2 ==> is_digit(#[trigger] s[i]),
    ensures
        digits_value(s, start, e1) <= digits_value(s, start, e2),
    decreases e2 - e1,
{
    if e1 < e2 {
        lemma_digits_value_mono(s, start, e1, e2 - 1);
        lemma_digits_value_nonneg(s, start, e2 - 1);
    }
}

/// Powers of ten are positive and grow with the exponent.
pub proof fn lemma_pow10_positive(e: nat)
    ensures
        pow10(e) >= 1,
    decreases e,
{
    if e > 0 {
        lemma_pow10_positive((e - 1) as nat);
    }
}

/// Ten to a larger exponent is at least ten to a smaller one.
pub proof fn lemma_pow10_mono(e1: nat, e2: nat)
    requires
        e1 <= e2,
    ensures
        pow10(e1) <= pow10(e2),
    decreases e2,
{
    if e1 < e2 {
        lemma_pow10_mono(e1, (e2 - 1) as nat);
        lemma_pow10_positive((e2 - 1) as nat);
    }
}

/// Compute ten to the `e`.
fn pow10_exec(e: u64) -> (r: u128)
    requires
        pow10(e as nat) <= u128::MAX,
    ensures
        r == pow10(e as nat),
{
    let mut acc: u128 = 1;
    let mut i: u64 = 0;
    while i < e
        invariant
            0 <= i <= e,
            acc == pow10(i as nat),
            pow10(e as nat) <= u128::MAX,
        decreases e - i,
    {
        proof {
            lemma_pow10_mono((i + 1) as nat, e as nat);
            lemma_pow10_positive(i as nat);
        }
        acc = acc * 10;
        i = i + 1;
    }
    acc
}

/// Parse a token of decimal digits as a `usize`: skip separators, then
/// read the maximal digit run. Returns the value and the position just
/// past the run. Fails exactly when the input is exhausted, the first
/// non-separator is not a digit, or the value does not fit.
pub fn parse_number_usize(buf: &[u8], pos: usize) -> (r: Result<(usize, usize), InputError>)
    requires
        pos <= buf@.len(),
    ensures
        ({
            let t = skip_end(buf@, pos as int);
            let e = digit_run_end(buf@, t);
            match r {
                Ok((v, p2)) => {
                    &&& t < buf@.len()
                    &&& is_digit(buf@[t])
                    &&& p2 == e
                    &&& v == digits_value(buf@, t, e)
                }
                Err(InputError::UnexpectedEof) => t == buf@.len(),
                Err(InputError::MalformedNumber) => t < buf@.len() && !is_digit(buf@[t]),
                Err(InputError::Overflow) => {
                    &&& t < buf@.len()
                    &&& is_digit(buf@[t])
                    &&& digits_value(buf@, t, e) > usize::MAX
                }
                _ => false,
            }
        }),
{
    let len: usize = buf.len();
    let mut t: usize = pos;
    while t < len && (buf[t] == 44 || buf[t] == 32 || buf[t] == 9 || buf[t] == 10
            || buf[t] == 13 || buf[t] == 12)
        invariant
            pos <= t <= len,
            len == buf@.len(),
            skip_end(buf@, pos as int) == skip_end(buf@, t as int),
        decreases len - t,
    {
        t = t + 1;
    }
    if t >= len {
        return Err(InputError::UnexpectedEof);
    }
    if !(48 <= buf[t] && buf[t] <= 57) {
        return Err(InputError::MalformedNumber);
    }
    let ghost ts: int = t as int;
    let mut p: usize = t;
    let mut acc: u128 = 0;
    let mut too_big: bool = false;
    while p < len && 48 <= buf[p] && buf[p] <= 57
        invariant
            ts == t as int,
            t <= p <= len,
            len == buf@.len(),
            forall|i: int| ts <= i < p ==> is_digit(#[trigger] buf@[i]),
            digit_run_end(buf@, ts) == digit_run_end(buf@, p as int),
            !too_big ==> acc == digits_value(buf@, ts, p as int)
                && acc <= usize::MAX,
            too_big ==> digits_value(buf@, ts, p as int) > usize::MAX,
        decreases len - p,
    {
        let d: u8 = buf[p];
        proof {
            lemma_digits_value_nonneg(buf@, ts, p as int);
            if too_big {
                lemma_digits_value_mono(buf@, ts, p as int, p as int + 1);
                assert(digits_value(buf@, ts, p as int + 1)
                    == digits_value(buf@, ts, p as int) * 10 + (buf@[p as int] - 48));
                assert(digits_value(buf@, ts, p as int) * 10
                    >= digits_value(buf@, ts, p as int)) by (nonlinear_arith)
                    requires digits_value(buf@, ts, p as int) >= 0;
            }
        }
        if !too_big {
            let wide: u128 = acc * 10 + (d - 48) as u128;
            if wide > usize::MAX as u128 {
                too_big = true;
            } else {
                acc = wide;
            }
        }
        p = p + 1;
    }
    if too_big {
        proof {
            lemma_digits_value_mono(buf@, ts, p as int, digit_run_end(buf@, ts));
        }
        return Err(InputError::Overflow);
    }
    Ok((acc as usize, p))
}

// The anatomy of a weight token starting at `t` (itself the first
// non-separator): an optional sign, integer digits, an optional `.` with
// fraction digits, and an optional `e`/`E` exponent with its own
// optional sign.

/// Position after the token's optional leading sign.
pub open spec fn mantissa_start(s: Seq<u8>, t: int) -> int {
    if t < s.len() && (s[t] == 43 || s[t] == 45) {
        t + 1
    } else {
        t
    }
}

/// End of the integer digits.
pub open spec fn int_end(s: Seq<u8>, t: int) -> int {
    digit_run_end(s, mantissa_start(s, t))
}

/// Start of the fraction digits: just past the `.`, if there is one.
pub open spec fn frac_start(s: Seq<u8>, t: int) -> int {
    if int_end(s, t) < s.len() && s[int_end(s, t)] == 46 {
        int_end(s, t) + 1
    } else {
        int_end(s, t)
    }
}

/// End of the fraction digits.
pub open spec fn frac_end(s: Seq<u8>, t: int) -> int {
    digit_run_end(s, frac_start(s, t))
}

/// Whether an `e`/`E` exponent marker follows the mantissa.
pub open spec fn has_exp(s: Seq<u8>, t: int) -> bool {
    frac_end(s, t) < s.len() && (s[frac_end(s, t)] == 101 || s[frac_end(s, t)] == 69)
}

/// Whether the exponent carries a minus sign.
pub open spec fn exp_is_neg(s: Seq<u8>, t: int) -> bool {
    has_exp(s, t) && frac_end(s, t) + 1 < s.len() && s[frac_end(s, t) + 1] == 45
}

/// Start of the exponent digits: past the marker and its optional sign.
pub open spec fn exp_digit_start(s: Seq<u8>, t: int) -> int {
    if has_exp(s, t) {
        let q = frac_end(s, t) + 1;
        if q < s.len() && (s[q] == 43 || s[q] == 45) {
            q + 1
        } else {
            q
        }
    } else {
        frac_end(s, t)
    }
}

/// End of the exponent digits.
pub open spec fn exp_end(s: Seq<u8>, t: int) -> int {
    digit_run_end(s, exp_digit_start(s, t))
}

/// A well-formed weight token: at least one mantissa digit, exponent
/// digits wherever a marker stands, and nothing else before the end of
/// the character run.
pub open spec fn weight_token_wf(s: Seq<u8>, t: int) -> bool {
    &&& t < s.len()
    &&& (int_end(s, t) > mantissa_start(s, t) || frac_end(s, t) > frac_start(s, t))
    &&& (has_exp(s, t) ==> exp_end(s, t) > exp_digit_start(s, t))
    &&& (if has_exp(s, t) { exp_end(s, t) } else { frac_end(s, t) }) == token_end(s, t)
}

/// The token carries a leading minus sign.
pub open spec fn weight_is_negative(s: Seq<u8>, t: int) -> bool {
    t < s.len() && s[t] == 45
}

/// The integer and fraction digits read as one integer.
pub open spec fn mantissa_value(s: Seq<u8>, t: int) -> int {
    digits_value(s, mantissa_start(s, t), int_end(s, t))
        * pow10((frac_end(s, t) - frac_start(s, t)) as nat)
        + digits_value(s, frac_start(s, t), frac_end(s, t))
}

/// The exponent's own value, zero when there is none.
pub open spec fn exp_value(s: Seq<u8>, t: int) -> int {
    if has_exp(s, t) {
        digits_value(s, exp_digit_start(s, t), exp_end(s, t))
    } else {
        0
    }
}

/// The decimal shift that turns the mantissa into thousandths: the
/// signed exponent, plus three for the fixed-point scale, minus the
/// fraction length.
pub open spec fn net_exp(s: Seq<u8>, t: int) -> int {
    (if exp_is_neg(s, t) { -exp_value(s, t) } else { exp_value(s, t) })
        + 3 - (frac_end(s, t) - frac_start(s, t))
}

/// The token's value in thousandths, truncated toward zero.
pub open spec fn weight_milli(s: Seq<u8>, t: int) -> int {
    if net_exp(s, t) >= 0 {
        mantissa_value(s, t) * pow10(net_exp(s, t) as nat)
    } else {
        mantissa_value(s, t) / pow10((-net_exp(s, t)) as nat)
    }
}

/// For a positive divisor, staying at or under the floored quotient
/// keeps the product at or under the dividend.
pub proof fn lemma_mul_le_of_div(a: int, b: int, m: int)
    requires
        0 <= a,
        1 <= b,
        0 <= m,
        a <= m / b,
    ensures
        a * b <= m,
{
    vstd::arithmetic::div_mod::lemma_fundamental_div_mod(m, b);
    assert(a * b <= (m / b) * b) by (nonlinear_arith)
        requires 0 <= a && 1 <= b && a <= m / b;
    assert(0 <= m % b < b) by (nonlinear_arith)
        requires 1 <= b && 0 <= m;
}

/// For a positive divisor, passing the floored quotient pushes the
/// product past the dividend.
pub proof fn lemma_mul_gt_of_div(a: int, b: int, m: int)
    requires
        0 <= a,
        1 <= b,
        0 <= m,
        a > m / b,
    ensures
        a * b > m,
{
    vstd::arithmetic::div_mod::lemma_fundamental_div_mod(m, b);
    assert(a * b >= (m / b) * b + b) by (nonlinear_arith)
        requires 1 <= b && a >= m / b + 1;
    assert(0 <= m % b < b) by (nonlinear_arith)
        requires 1 <= b && 0 <= m;
}

/// A dividend smaller than its positive divisor floors to zero.
pub proof fn lemma_div_small(a: int, b: int)
    requires
        0 <= a < b,
    ensures
        a / b == 0,
{
    vstd::arithmetic::div_mod::lemma_basic_div(a, b);
}

/// Mantissas at or above thirty digits of value are rejected: their
/// thousandths could not be told apart exactly in the fixed-point range.
pub const MANTISSA_CAP: u128 = 1_000_000_000_000_000_000_000_000_000_000;

/// Exponents are saturated here; past it the token's value is already
/// settled either way.
pub const EXPONENT_CAP: u128 = 100_000_000_000_000_000_000;

pub proof fn lemma_pow10_20()
    ensures
        pow10(20) == EXPONENT_CAP,
        pow10(20) > u64::MAX,
{
    reveal_with_fuel(pow10, 21);
}

pub proof fn lemma_pow10_30()
    ensures
        pow10(30) == MANTISSA_CAP,
{
    reveal_with_fuel(pow10, 31);
}

/// A token run starts no earlier than its start and ends within the
/// input.
pub proof fn lemma_token_end_bounds(s: Seq<u8>, pos: int)
    requires
        0 <= pos <= s.len(),
    ensures
        pos <= token_end(s, pos) <= s.len(),
    decreases s.len() - pos,
{
    if pos < s.len() && is_weight_char(s[pos]) {
        lemma_token_end_bounds(s, pos + 1);
    }
}

/// So does a separator run.
pub proof fn lemma_skip_end_bounds(s: Seq<u8>, pos: int)
    requires
        0 <= pos <= s.len(),
    ensures
        pos <= skip_end(s, pos) <= s.len(),
    decreases s.len() - pos,
{
    if pos < s.len() && is_sep(s[pos]) {
        lemma_skip_end_bounds(s, pos + 1);
    }
}

/// And a digit run.
pub proof fn lemma_digit_run_end_bounds(s: Seq<u8>, pos: int)
    requires
        0 <= pos <= s.len(),
    ensures
        pos <= digit_run_end(s, pos) <= s.len(),
    decreases s.len() - pos,
{
    if pos < s.len() && is_digit(s[pos]) {
        lemma_digit_run_end_bounds(s, pos + 1);
    }
}

/// Every character inside a digit run is a digit.
pub proof fn lemma_digit_run_digits(s: Seq<u8>, pos: int)
    ensures
        forall|i: int| pos <= i < digit_run_end(s, pos) ==> is_digit(#[trigger] s[i]),
    decreases s.len() - pos,
{
    if 0 <= pos < s.len() && is_digit(s[pos]) {
        lemma_digit_run_digits(s, pos + 1);
        assert forall|i: int| pos <= i < digit_run_end(s, pos) implies is_digit(s[i]) by {
            if i > pos {
                assert(is_digit(s[i]));
            }
        }
    }
}

/// Scale a scanned mantissa by its net decimal shift — signed exponent,
/// plus three for thousandths, minus the fraction length — truncating
/// toward zero, and decide whether the value fits `u64`.
fn scale_weight(mant: u128, frac_len: usize, exp_neg: bool, expv: u128, exp_big: bool,
                te: usize, Ghost(s): Ghost<Seq<u8>>, Ghost(tt): Ghost<int>)
    -> (r: Result<(u64, usize), InputError>)
    requires
        0 <= tt < s.len(),
        weight_token_wf(s, tt),
        mant == mantissa_value(s, tt),
        mant < MANTISSA_CAP,
        frac_len as int == frac_end(s, tt) - frac_start(s, tt),
        exp_neg == exp_is_neg(s, tt),
        !exp_big ==> expv == exp_value(s, tt) && expv < EXPONENT_CAP,
        exp_big ==> exp_value(s, tt) >= EXPONENT_CAP,
        te as int == token_end(s, tt),
    ensures
        match r {
            Ok((w, p2)) => {
                &&& weight_milli(s, tt) <= u64::MAX
                &&& w == weight_milli(s, tt)
                &&& p2 == token_end(s, tt)
            }
            Err(InputError::Overflow) => weight_milli(s, tt) > u64::MAX,
            _ => false,
        },
{
    proof {
        lemma_digit_run_digits(s, exp_digit_start(s, tt));
        lemma_digits_value_nonneg(s, exp_digit_start(s, tt), exp_end(s, tt));
        lemma_pow10_30();
    }
    // Scale: the net decimal shift is the signed exponent plus three,
    // minus the fraction length.
    proof {
        lemma_pow10_20();
    }
    if exp_big && !exp_neg {
        // The shift is at least EXPONENT_CAP + 3 - frac_len, far past
        // any representable magnitude unless the mantissa is zero.
        proof {
            assert(net_exp(s, tt) >= EXPONENT_CAP + 3 - frac_len as int);
            assert(net_exp(s, tt) >= 20);
        }
        if mant == 0 {
            proof {
                assert(mantissa_value(s, tt) * pow10(net_exp(s, tt) as nat) == 0)
                    by (nonlinear_arith)
                    requires mantissa_value(s, tt) == 0;
            }
            return Ok((0, te));
        }
        proof {
            lemma_pow10_mono(20, net_exp(s, tt) as nat);
            assert(mantissa_value(s, tt) * pow10(net_exp(s, tt) as nat) >= pow10(net_exp(s, tt) as nat))
                by (nonlinear_arith)
                requires mantissa_value(s, tt) >= 1 && pow10(net_exp(s, tt) as nat) >= 1;
        }
        return Err(InputError::Overflow);
    }
    if exp_big && exp_neg {
        // The shift is below -(EXPONENT_CAP - 3): the value truncates to
        // zero whatever the mantissa.
        proof {
            assert(net_exp(s, tt) <= 3 - EXPONENT_CAP);
            assert((-net_exp(s, tt)) as nat >= 31);
            lemma_pow10_mono(31, (-net_exp(s, tt)) as nat);
            lemma_pow10_mono(30, 31);
            assert(pow10(31) == 10 * pow10(30));
            lemma_div_small(mantissa_value(s, tt), pow10((-net_exp(s, tt)) as nat));
        }
        return Ok((0, te));
    }

    let pos_part: u128 = 3 + if exp_neg { 0 } else { expv };
    let neg_part: u128 = frac_len as u128 + if exp_neg { expv } else { 0 };
    if pos_part >= neg_part {
        let netp: u128 = pos_part - neg_part;
        proof {
            assert(netp == net_exp(s, tt));
        }
        if mant == 0 {
            proof {
                assert(mantissa_value(s, tt) * pow10(netp as nat) == 0) by (nonlinear_arith)
                    requires mantissa_value(s, tt) == 0;
            }
            return Ok((0, te));
        }
        if netp >= 20 {
            proof {
                lemma_pow10_mono(20, netp as nat);
                assert(mantissa_value(s, tt) * pow10(netp as nat) >= pow10(netp as nat))
                    by (nonlinear_arith)
                    requires mantissa_value(s, tt) >= 1 && pow10(netp as nat) >= 1;
            }
            return Err(InputError::Overflow);
        }
        proof {
            lemma_pow10_mono(netp as nat, 20);
        }
        let p10: u128 = pow10_exec(netp as u64);
        proof {
            lemma_pow10_positive(netp as nat);
        }
        let limit: u128 = u64::MAX as u128 / p10;
        if mant > limit {
            proof {
                lemma_mul_gt_of_div(mant as int, p10 as int, u64::MAX as int);
            }
            return Err(InputError::Overflow);
        }
        proof {
            lemma_mul_le_of_div(mant as int, p10 as int, u64::MAX as int);
        }
        let w: u128 = mant * p10;
        return Ok((w as u64, te));
    } else {
        let netn: u128 = neg_part - pos_part;
        proof {
            assert(netn == -net_exp(s, tt));
        }
        if netn >= 31 {
            proof {
                lemma_pow10_mono(31, netn as nat);
                lemma_pow10_mono(30, 31);
                assert(pow10(31) == 10 * pow10(30));
                lemma_div_small(mantissa_value(s, tt), pow10(netn as nat));
            }
            return Ok((0, te));
        }
        proof {
            lemma_pow10_mono(netn as nat, 31);
            lemma_pow10_mono(30, 31);
            assert(pow10(31) == 10 * pow10(30));
        }
        let p10: u128 = pow10_exec(netn as u64);
        proof {
            lemma_pow10_positive(netn as nat);
        }
        let w: u128 = mant / p10;
        if w > u64::MAX as u128 {
            return Err(InputError::Overflow);
        }
        return Ok((w as u64, te));
    }
}

/// Parse one weight token into fixed-point thousandths: skip separators,
/// read sign, mantissa, fraction and exponent, and scale. Succeeds with
/// the truncated value and the position just past the token exactly when
/// the token is well formed, non-negative, its mantissa below
/// `MANTISSA_CAP`, and its value within `u64`; the error otherwise says
/// which of those failed.
#[verifier::rlimit(60)]
#[verifier::loop_isolation(false)]
pub fn parse_weight_milli(buf: &[u8], pos: usize) -> (r: Result<(u64, usize), InputError>)
    requires
        pos <= buf@.len(),
    ensures
        ({
            let s = buf@;
            let t = skip_end(s, pos as int);
            match r {
                Ok((w, p2)) => {
                    &&& t < s.len()
                    &&& weight_token_wf(s, t)
                    &&& !weight_is_negative(s, t)
                    &&& mantissa_value(s, t) < MANTISSA_CAP
                    &&& weight_milli(s, t) <= u64::MAX
                    &&& w == weight_milli(s, t)
                    &&& p2 == token_end(s, t)
                }
                Err(InputError::UnexpectedEof) => t == s.len(),
                Err(InputError::MalformedNumber) => t < s.len() && !weight_token_wf(s, t),
                Err(InputError::NegativeWeight) => weight_token_wf(s, t)
                    && weight_is_negative(s, t),
                Err(InputError::Overflow) => {
                    &&& weight_token_wf(s, t)
                    &&& !weight_is_negative(s, t)
                    &&& (mantissa_value(s, t) >= MANTISSA_CAP
                        || weight_milli(s, t) > u64::MAX)
                }
                _ => false,
            }
        }),
{
    let len: usize = buf.len();
    let mut t: usize = pos;
    while t < len && (buf[t] == 44 || buf[t] == 32 || buf[t] == 9 || buf[t] == 10
            || buf[t] == 13 || buf[t] == 12)
        invariant
            pos <= t <= len,
            skip_end(buf@, pos as int) == skip_end(buf@, t as int),
        decreases len - t,
    {
        t = t + 1;
    }
    if t >= len {
        return Err(InputError::UnexpectedEof);
    }
    let ghost s = buf@;
    let ghost tt: int = t as int;

    // The end of the character run the token may occupy.
    let mut te: usize = t;
    while te < len && (48 <= buf[te] && buf[te] <= 57 || buf[te] == 46 || buf[te] == 101
            || buf[te] == 69 || buf[te] == 43 || buf[te] == 45)
        invariant
            t <= te <= len,
            token_end(s, tt) == token_end(s, te as int),
        decreases len - te,
    {
        te = te + 1;
    }
    proof {
        assert(te == token_end(s, tt));
    }

    // Sign.
    let neg: bool = buf[t] == 45;
    let mut q: usize = t;
    if buf[q] == 43 || buf[q] == 45 {
        q = q + 1;
    }
    proof {
        assert(q == mantissa_start(s, tt));
    }
    let ghost ms: int = q as int;

    // Integer digits.
    let int_start: usize = q;
    let mut mant: u128 = 0;
    let mut mant_big: bool = false;
    while q < len && 48 <= buf[q] && buf[q] <= 57
        invariant
            int_start <= q <= len,
            ms == int_start as int,
            forall|i: int| ms <= i < q ==> is_digit(#[trigger] s[i]),
            digit_run_end(s, ms) == digit_run_end(s, q as int),
            !mant_big ==> mant == digits_value(s, ms, q as int) && mant < MANTISSA_CAP,
            mant_big ==> digits_value(s, ms, q as int) >= MANTISSA_CAP,
        decreases len - q,
    {
        let d: u8 = buf[q];
        proof {
            lemma_digits_value_nonneg(s, ms, q as int);
            if mant_big {
                assert(digits_value(s, ms, q as int + 1)
                    == digits_value(s, ms, q as int) * 10 + (s[q as int] - 48));
                assert(digits_value(s, ms, q as int) * 10
                    >= digits_value(s, ms, q as int)) by (nonlinear_arith)
                    requires digits_value(s, ms, q as int) >= 0;
            }
        }
        if !mant_big {
            let wide: u128 = mant * 10 + (d - 48) as u128;
            if wide >= MANTISSA_CAP {
                mant_big = true;
            } else {
                mant = wide;
            }
        }
        q = q + 1;
    }
    proof {
        assert(q == int_end(s, tt));
    }
    let int_done: usize = q;
    let ghost iv: int = digits_value(s, ms, int_done as int);

    // Fraction digits.
    let mut frac_len: usize = 0;
    let has_dot: bool = q < len && buf[q] == 46;
    if has_dot {
        q = q + 1;
    }
    proof {
        assert(q == frac_start(s, tt));
    }
    let ghost fs: int = q as int;
    let frac_digit_start: usize = q;
    while q < len && 48 <= buf[q] && buf[q] <= 57
        invariant
            frac_digit_start <= q <= len,
            fs == frac_digit_start as int,
            frac_len == q - frac_digit_start,
            forall|i: int| fs <= i < q ==> is_digit(#[trigger] s[i]),
            digit_run_end(s, fs) == digit_run_end(s, q as int),
            iv == digits_value(s, ms, int_done as int),
            iv >= 0,
            !mant_big ==> mant == iv * pow10((q - fs) as nat) + digits_value(s, fs, q as int)
                && mant < MANTISSA_CAP,
            mant_big ==> iv * pow10((q - fs) as nat) + digits_value(s, fs, q as int)
                >= MANTISSA_CAP,
        decreases len - q,
    {
        let d: u8 = buf[q];
        proof {
            let k: nat = (q - fs) as nat;
            lemma_digits_value_nonneg(s, fs, q as int);
            lemma_pow10_positive(k);
            assert(pow10((k + 1) as nat) == 10 * pow10(k));
            assert((iv * pow10(k)) * 10 == iv * (10 * pow10(k))) by (nonlinear_arith);
            assert(digits_value(s, fs, q as int + 1)
                == digits_value(s, fs, q as int) * 10 + (s[q as int] - 48));
            if mant_big {
                assert(iv * pow10(k) >= 0) by (nonlinear_arith)
                    requires iv >= 0 && pow10(k) >= 1;
                let sofar = iv * pow10(k) + digits_value(s, fs, q as int);
                assert(sofar * 10 >= sofar) by (nonlinear_arith)
                    requires sofar >= 0;
            }
        }
        if !mant_big {
            let wide: u128 = mant * 10 + (d - 48) as u128;
            if wide >= MANTISSA_CAP {
                mant_big = true;
            } else {
                mant = wide;
            }
        }
        frac_len = frac_len + 1;
        q = q + 1;
    }
    proof {
        assert(q == frac_end(s, tt));
        if !has_dot {
            assert(fs == int_done as int && q == int_done);
        }
        assert(frac_len == frac_end(s, tt) - frac_start(s, tt));
    }

    // Exponent.
    let has_e: bool = q < len && (buf[q] == 101 || buf[q] == 69);
    let mut exp_neg: bool = false;
    let mut expv: u128 = 0;
    let mut exp_big: bool = false;
    let mut saw_exp_digit: bool = false;
    if has_e {
        q = q + 1;
        if q < len && (buf[q] == 43 || buf[q] == 45) {
            exp_neg = buf[q] == 45;
            q = q + 1;
        }
        proof {
            assert(q == exp_digit_start(s, tt));
            assert(exp_neg == exp_is_neg(s, tt));
        }
        let ghost es: int = q as int;
        let exp_start: usize = q;
        while q < len && 48 <= buf[q] && buf[q] <= 57
            invariant
                exp_start <= q <= len,
                es == exp_start as int,
                saw_exp_digit == (q > exp_start),
                forall|i: int| es <= i < q ==> is_digit(#[trigger] s[i]),
                digit_run_end(s, es) == digit_run_end(s, q as int),
                !exp_big ==> expv == digits_value(s, es, q as int) && expv < EXPONENT_CAP,
                exp_big ==> digits_value(s, es, q as int) >= EXPONENT_CAP,
            decreases len - q,
        {
            let d: u8 = buf[q];
            proof {
                lemma_digits_value_nonneg(s, es, q as int);
                if exp_big {
                    assert(digits_value(s, es, q as int + 1)
                        == digits_value(s, es, q as int) * 10 + (s[q as int] - 48));
                    assert(digits_value(s, es, q as int) * 10
                        >= digits_value(s, es, q as int)) by (nonlinear_arith)
                        requires digits_value(s, es, q as int) >= 0;
                }
            }
            if !exp_big {
                let wide: u128 = expv * 10 + (d - 48) as u128;
                if wide >= EXPONENT_CAP {
                    exp_big = true;
                } else {
                    expv = wide;
                }
            }
            saw_exp_digit = true;
            q = q + 1;
        }
        proof {
            assert(q == exp_end(s, tt));
        }
    }

    // Well-formedness.
    let saw_mantissa_digit: bool = int_done > int_start || frac_len > 0;
    if !(saw_mantissa_digit && (!has_e || saw_exp_digit) && q == te) {
        proof {
            assert(!weight_token_wf(s, tt));
        }
        return Err(InputError::MalformedNumber);
    }
    proof {
        assert(weight_token_wf(s, tt));
        assert(neg == weight_is_negative(s, tt));
        if !mant_big {
            assert(mant == mantissa_value(s, tt));
        } else {
            assert(mantissa_value(s, tt) >= MANTISSA_CAP);
        }
        lemma_pow10_30();
    }
    if neg {
        return Err(InputError::NegativeWeight);
    }
    if mant_big {
        return Err(InputError::Overflow);
    }
    scale_weight(mant, frac_len, exp_neg, expv, exp_big, te, Ghost(s), Ghost(tt))
}

/// The weight token beginning at the first non-separator at or after
/// `pos` parses cleanly into the fixed-point range.
pub open spec fn weight_ok(s: Seq<u8>, pos: int) -> bool {
    let t = skip_end(s, pos);
    &&& t < s.len()
    &&& weight_token_wf(s, t)
    &&& !weight_is_negative(s, t)
    &&& mantissa_value(s, t) < MANTISSA_CAP
    &&& weight_milli(s, t) <= u64::MAX
}

/// Its value in thousandths.
pub open spec fn weight_at(s: Seq<u8>, pos: int) -> u64 {
    weight_milli(s, skip_end(s, pos)) as u64
}

/// The position just past it.
pub open spec fn weight_after(s: Seq<u8>, pos: int) -> int {
    token_end(s, skip_end(s, pos))
}

/// Why the weight token at `pos` fails to parse.
pub open spec fn weight_err(s: Seq<u8>, pos: int) -> InputError {
    let t = skip_end(s, pos);
    if t >= s.len() {
        InputError::UnexpectedEof
    } else if !weight_token_wf(s, t) {
        InputError::MalformedNumber
    } else if weight_is_negative(s, t) {
        InputError::NegativeWeight
    } else {
        InputError::Overflow
    }
}

/// Where the reader stands after consuming `i` weight tokens from `p0`.
pub open spec fn pos_after(s: Seq<u8>, p0: int, i: int) -> int
    decreases i,
{
    if i <= 0 {
        p0
    } else {
        weight_after(s, pos_after(s, p0, i - 1))
    }
}

/// The first `i` weight values read from `p0`.
pub open spec fn weights_prefix(s: Seq<u8>, p0: int, i: int) -> Seq<u64>
    decreases i,
{
    if i <= 0 {
        Seq::empty()
    } else {
        weights_prefix(s, p0, i - 1).push(weight_at(s, pos_after(s, p0, i - 1)))
    }
}

/// Load the whole grid from a byte stream: the first token is the node
/// count `n`, followed by `n * n` weights in row-major order. Succeeds
/// exactly when the count parses and fits the flat table and every
/// weight token parses into range; the error otherwise names the count's
/// failure, the oversize count, or the first weight that fails.
#[verifier::loop_isolation(false)]
pub fn read_graph(buf: &[u8]) -> (r: Result<(Graph, usize), InputError>)
    ensures
        ({
            let s = buf@;
            let t0 = skip_end(s, 0);
            let e0 = digit_run_end(s, t0);
            let n_ok = t0 < s.len() && is_digit(s[t0])
                && digits_value(s, t0, e0) <= usize::MAX;
            let nv = digits_value(s, t0, e0);
            match r {
                Ok((g, n)) => {
                    &&& n_ok
                    &&& n == nv
                    &&& n <= 0xFFFF_FFFF
                    &&& n * n <= usize::MAX
                    &&& forall|i: int| 0 <= i < n * n
                        ==> weight_ok(s, #[trigger] pos_after(s, e0, i))
                    &&& g.wf()
                    &&& g.n == n
                    &&& g.values@ == weights_prefix(s, e0, (n * n) as int)
                }
                Err(e) => {
                    ||| (t0 == s.len() && e == InputError::UnexpectedEof)
                    ||| (t0 < s.len() && !is_digit(s[t0]) && e == InputError::MalformedNumber)
                    ||| (t0 < s.len() && is_digit(s[t0]) && nv > usize::MAX
                        && e == InputError::Overflow)
                    ||| (n_ok && (nv > 0xFFFF_FFFF || nv * nv > usize::MAX)
                        && e == InputError::TooLarge)
                    ||| (n_ok && nv <= 0xFFFF_FFFF && nv * nv <= usize::MAX
                        && exists|i: int| 0 <= i < nv * nv
                            && !weight_ok(s, #[trigger] pos_after(s, e0, i))
                            && (forall|k: int| 0 <= k < i
                                ==> weight_ok(s, #[trigger] pos_after(s, e0, k)))
                            && e == weight_err(s, pos_after(s, e0, i)))
                }
            }
        }),
{
    let ghost s = buf@;
    let len: usize = buf.len();
    let (n, after_n): (usize, usize) = match parse_number_usize(buf, 0) {
        Ok(v) => v,
        Err(e) => {
            return Err(e);
        }
    };
    if n as u64 > 0xFFFF_FFFFu64 {
        return Err(InputError::TooLarge);
    }
    proof {
        assert((n as int) * (n as int) < 0x1_0000_0000_0000_0000) by (nonlinear_arith)
            requires n <= 0xFFFF_FFFFu64;
    }
    let total_wide: u64 = n as u64 * n as u64;
    if total_wide > usize::MAX as u64 {
        return Err(InputError::TooLarge);
    }
    let total: usize = total_wide as usize;
    let ghost e0: int = digit_run_end(s, skip_end(s, 0));
    proof {
        assert(after_n as int == e0);
        lemma_skip_end_bounds(s, 0);
        lemma_digit_run_end_bounds(s, skip_end(s, 0));
    }

    let mut vals: Vec<u64> = Vec::new();
    let mut pos: usize = after_n;
    let mut i: usize = 0;
    while i < total
        invariant
            i == vals@.len(),
            0 <= i <= total,
            pos <= len,
            pos as int == pos_after(s, e0, i as int),
            vals@ == weights_prefix(s, e0, i as int),
            forall|k: int| 0 <= k < i ==> weight_ok(s, #[trigger] pos_after(s, e0, k)),
        decreases total - i,
    {
        match parse_weight_milli(buf, pos) {
            Ok((w, p2)) => {
                proof {
                    assert(weight_ok(s, pos as int));
                    assert(w == weight_at(s, pos as int));
                    assert(p2 as int == weight_after(s, pos as int));
                    lemma_token_end_bounds(s, skip_end(s, pos as int));
                    assert(pos_after(s, e0, i as int + 1)
                        == weight_after(s, pos_after(s, e0, i as int)));
                    assert(weights_prefix(s, e0, i as int + 1)
                        =~= weights_prefix(s, e0, i as int).push(w));
                    assert forall|k: int| 0 <= k < i + 1
                        implies weight_ok(s, #[trigger] pos_after(s, e0, k)) by {
                    }
                }
                vals.push(w);
                pos = p2;
                i = i + 1;
            }
            Err(e) => {
                proof {
                    assert(!weight_ok(s, pos as int));
                    assert(e == weight_err(s, pos as int));
                    assert(0 <= i < total as int && !weight_ok(s, pos_after(s, e0, i as int))
                        && (forall|k: int| 0 <= k < i
                            ==> weight_ok(s, #[trigger] pos_after(s, e0, k)))
                        && e == weight_err(s, pos_after(s, e0, i as int)));
                }
                return Err(e);
            }
        }
    }
    proof {
        assert(vals@.len() == n * n);
    }
    Ok((Graph::new(vals, n), n))
}

} // verus!
