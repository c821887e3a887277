//! Numeric text parsing in fixed point.
//!
//! Coordinates are carried as micro-degrees: a degree value scaled by
//! 1,000,000 and rounded half away from zero, stored in an `i32`.
//! [`parse_micro_degrees`] turns the decimal text of a degree value into
//! that representation directly, with pure integer arithmetic.
//! [`parse_i32`] parses a plain signed integer (a signal strength).

use vstd::prelude::*;

use crate::bytes::lemma_first_ix_char;
use crate::bytes::DIGIT_FIVE;
use crate::bytes::DIGIT_NINE;
use crate::bytes::DIGIT_ZERO;
use crate::bytes::DOT;
use crate::bytes::MINUS;
use crate::bytes::PLUS;
use crate::bytes::lemma_first_ix_of;
use crate::bytes::spec_first_ix;

verus! {

pub open spec fn is_digit(b: u8) -> bool {
    DIGIT_ZERO <= b && b <= DIGIT_NINE
}

pub open spec fn all_digits(s: Seq<u8>) -> bool {
    forall|i: int| 0 <= i < s.len() ==> is_digit(#[trigger] s[i])
}

/// The number denoted by a sequence of decimal digits (most significant
/// first); 0 for the empty sequence.
pub open spec fn digits_val(s: Seq<u8>) -> int
    decreases s.len(),
{
    if s.len() == 0 {
        0
    } else {
        digits_val(s.drop_last()) * 10 + (s.last() - DIGIT_ZERO)
    }
}

pub open spec fn pow10(k: nat) -> int
    decreases k,
{
    if k == 0 {
        1
    } else {
        10 * pow10((k - 1) as nat)
    }
}

/// The digits of `s` with one leading `+` or `-` removed, if present.
pub open spec fn strip_sign(s: Seq<u8>) -> Seq<u8> {
    if s.len() > 0 && (s[0] == PLUS || s[0] == MINUS) {
        s.skip(1)
    } else {
        s
    }
}

pub open spec fn sign_of(s: Seq<u8>) -> int {
    if s.len() > 0 && s[0] == MINUS {
        -1
    } else {
        1
    }
}

/// `s` is an optionally signed, non-empty run of decimal digits.
pub open spec fn is_int_literal(s: Seq<u8>) -> bool {
    strip_sign(s).len() > 0 && all_digits(strip_sign(s))
}

pub open spec fn int_literal_val(s: Seq<u8>) -> int {
    sign_of(s) * digits_val(strip_sign(s))
}

/// What [`parse_i32`] returns. The accepted range is symmetric: callers
/// negate the value (RSSI sign inversion), so the one value whose negation
/// would not fit an `i32` is rejected like any other out-of-range text.
pub open spec fn spec_parse_i32(s: Seq<u8>) -> Option<i32> {
    if is_int_literal(s) && -2147483647 <= int_literal_val(s) <= 2147483647 {
        Some(int_literal_val(s) as i32)
    } else {
        None
    }
}

pub proof fn lemma_digits_val_bound(s: Seq<u8>)
    requires
        all_digits(s),
    ensures
        0 <= digits_val(s) < pow10(s.len()),
    decreases s.len(),
{
    if s.len() > 0 {
        assert(all_digits(s.drop_last())) by {
            assert(forall|i: int| 0 <= i < s.len() - 1 ==> s.drop_last()[i] == s[i]);
        }
        lemma_digits_val_bound(s.drop_last());
        assert(is_digit(s.last()));
    }
}

/// Reading more digits can only grow the denoted number.
pub proof fn lemma_digits_val_take_le(s: Seq<u8>, k: int)
    requires
        all_digits(s),
        0 <= k <= s.len(),
    ensures
        digits_val(s.take(k)) <= digits_val(s),
    decreases s.len() - k,
{
    if k < s.len() {
        assert(all_digits(s.take(k))) by {
            assert(forall|i: int| 0 <= i < k ==> s.take(k)[i] == s[i]);
        }
        lemma_digits_val_bound(s.take(k));
        assert(s.take(k + 1).drop_last() =~= s.take(k));
        assert(s.take(k + 1).last() == s[k]);
        assert(digits_val(s.take(k + 1)) == digits_val(s.take(k)) * 10 + (s[k] - DIGIT_ZERO));
        lemma_digits_val_take_le(s, k + 1);
    } else {
        assert(s.take(k) =~= s);
    }
}

/// Parse an optionally signed decimal integer.
///
/// Returns the value exactly when the text is a signed digit run whose
/// value lies in `-2147483647 ..= 2147483647`; anything else — empty text,
/// a stray character, a value out of that range — yields `None`.
pub fn parse_i32(s: &Vec<u8>) -> (r: Option<i32>)
    ensures
        r == spec_parse_i32(s@),
{
    let n = s.len();
    let mut i: usize = 0;
    let mut neg = false;
    if n > 0 && (s[0] == PLUS || s[0] == MINUS) {
        neg = s[0] == MINUS;
        i = 1;
    }
    let start = i;
    let ghost t = strip_sign(s@);
    proof {
        assert(t =~= s@.skip(start as int));
    }
    if i == n {
        return None;
    }
    let mut acc: i64 = 0;
    while i < n
        invariant
            start <= i <= n,
            n == s@.len(),
            t == s@.skip(start as int),
            t == strip_sign(s@),
            neg ==> sign_of(s@) == -1,
            !neg ==> sign_of(s@) == 1,
            t.len() == n - start,
            0 <= acc <= 2147483647,
            acc == digits_val(t.take(i - start)),
            all_digits(t.take(i - start)),
        decreases n - i,
    {
        let b = s[i];
        proof {
            assert(t[i - start] == s@[i as int]);
        }
        if !(DIGIT_ZERO <= b && b <= DIGIT_NINE) {
            proof {
                assert(!is_digit(t[i - start]));
                assert(!all_digits(t));
                assert(spec_parse_i32(s@) is None);
            }
            return None;
        }
        let d = (b - DIGIT_ZERO) as i64;
        let tentative = acc * 10 + d;
        proof {
            assert(t.take(i - start + 1).drop_last() =~= t.take((i - start) as int));
            assert(t.take(i - start + 1).last() == t[i - start]);
            assert(digits_val(t.take(i - start + 1)) == acc * 10 + (b - DIGIT_ZERO));
        }
        if tentative > 2147483647 {
            proof {
                if all_digits(t) {
                    lemma_digits_val_take_le(t, i - start + 1);
                    assert(digits_val(t) >= digits_val(t.take(i - start + 1)));
                    assert(digits_val(t) > 2147483647);
                    assert(int_literal_val(s@) == sign_of(s@) * digits_val(t));
                    assert(sign_of(s@) == -1 || sign_of(s@) == 1);
                    assert(sign_of(s@) * digits_val(t) < -2147483647 || sign_of(s@) * digits_val(
                        t,
                    ) > 2147483647) by (nonlinear_arith)
                        requires
                            sign_of(s@) == -1 || sign_of(s@) == 1,
                            digits_val(t) > 2147483647,
                    ;
                    assert(spec_parse_i32(s@) is None);
                } else {
                    assert(spec_parse_i32(s@) is None);
                }
            }
            return None;
        }
        acc = tentative;
        proof {
            assert(all_digits(t.take(i - start + 1))) by {
                assert forall|k: int| 0 <= k < i - start + 1 implies is_digit(
                    #[trigger] t.take(i - start + 1)[k],
                ) by {
                    assert(t.take(i - start + 1)[k] == t[k]);
                    if k < i - start {
                        assert(t.take((i - start) as int)[k] == t[k]);
                        assert(is_digit(t.take((i - start) as int)[k]));
                    }
                }
            }
        }
        i = i + 1;
    }
    proof {
        assert(t.take(n - start) =~= t);
        assert(is_int_literal(s@));
        if neg {
            assert(sign_of(s@) == -1);
        } else {
            assert(sign_of(s@) == 1);
        }
    }
    let m = acc as i32;
    if neg {
        Some(-m)
    } else {
        Some(m)
    }
}

/// `t` (an unsigned body: no sign character) is decimal-number text: digits
/// with at most one point, and at least one digit.
pub open spec fn is_decimal_body(t: Seq<u8>) -> bool {
    match spec_first_ix(t, DOT) {
        None => t.len() > 0 && all_digits(t),
        Some(i) => all_digits(t.take(i)) && all_digits(t.skip(i + 1)) && t.len() > 1,
    }
}

/// The fraction digits of a decimal number, as micro-units: the first six
/// digits scaled to six places, then rounded half away from zero on the
/// remainder (the seventh digit decides, as the remainder's most
/// significant digit).
pub open spec fn frac_micro(f: Seq<u8>) -> int {
    if f.len() <= 6 {
        digits_val(f) * pow10((6 - f.len()) as nat)
    } else {
        digits_val(f.take(6)) + if f[6] >= DIGIT_FIVE {
            1int
        } else {
            0int
        }
    }
}

/// The magnitude of an unsigned decimal body in micro-units.
pub open spec fn decimal_micro_body(t: Seq<u8>) -> int {
    match spec_first_ix(t, DOT) {
        None => digits_val(t) * 1000000,
        Some(i) => digits_val(t.take(i)) * 1000000 + frac_micro(t.skip(i + 1)),
    }
}

/// `s` is an optionally signed decimal number: `-37.7785`, `+90`, `5.`, `.5`.
pub open spec fn is_decimal_literal(s: Seq<u8>) -> bool {
    is_decimal_body(strip_sign(s))
}

/// The signed micro-degree value of decimal-number text.
pub open spec fn decimal_micro(s: Seq<u8>) -> int {
    sign_of(s) * decimal_micro_body(strip_sign(s))
}

/// What [`parse_micro_degrees`] returns: the micro-degree value exactly
/// when the text is a decimal number and the scaled, rounded value fits an
/// `i32`.
pub open spec fn spec_parse_micro(s: Seq<u8>) -> Option<i32> {
    if is_decimal_literal(s) && -2147483648 <= decimal_micro(s) <= 2147483647 {
        Some(decimal_micro(s) as i32)
    } else {
        None
    }
}

pub proof fn lemma_pow10_pos(k: nat)
    ensures
        pow10(k) >= 1,
    decreases k,
{
    if k > 0 {
        lemma_pow10_pos((k - 1) as nat);
    }
}

pub proof fn lemma_pow10_mono(a: nat, b: nat)
    requires
        a <= b,
    ensures
        pow10(a) <= pow10(b),
    decreases b,
{
    if a < b {
        lemma_pow10_mono(a, (b - 1) as nat);
        lemma_pow10_pos((b - 1) as nat);
    }
}

pub proof fn lemma_pow10_adds(a: nat, b: nat)
    ensures
        pow10(a) * pow10(b) == pow10(a + b),
    decreases a,
{
    if a == 0 {
        assert(pow10(0) == 1);
    } else {
        lemma_pow10_adds((a - 1) as nat, b);
        assert(pow10(a) * pow10(b) == 10 * pow10((a + b - 1) as nat)) by (nonlinear_arith)
            requires
                pow10(a) == 10 * pow10((a - 1) as nat),
                pow10((a - 1) as nat) * pow10(b) == pow10((a + b - 1) as nat),
        ;
        assert(pow10(a + b) == 10 * pow10((a + b - 1) as nat));
    }
}

/// The fraction contribution lies between zero and one full micro-unit.
pub proof fn lemma_frac_micro_bounds(f: Seq<u8>)
    requires
        all_digits(f),
    ensures
        0 <= frac_micro(f) <= 1000000,
{
    if f.len() <= 6 {
        lemma_digits_val_bound(f);
        lemma_pow10_pos((6 - f.len()) as nat);
        lemma_pow10_adds(f.len(), (6 - f.len()) as nat);
        assert(pow10(6) == 1000000) by {
            reveal_with_fuel(pow10, 8);
        }
        assert(0 <= digits_val(f) * pow10((6 - f.len()) as nat) <= 1000000 - pow10(
            (6 - f.len()) as nat,
        )) by (nonlinear_arith)
            requires
                0 <= digits_val(f) < pow10(f.len()),
                pow10((6 - f.len()) as nat) >= 1,
                pow10(f.len()) * pow10((6 - f.len()) as nat) == 1000000,
        ;
        lemma_pow10_pos((6 - f.len()) as nat);
    } else {
        assert(all_digits(f.take(6))) by {
            assert(forall|i: int| 0 <= i < 6 ==> f.take(6)[i] == f[i]);
        }
        lemma_digits_val_bound(f.take(6));
        assert(pow10(6) == 1000000) by {
            reveal_with_fuel(pow10, 8);
        }
    }
}

/// A magnitude above the whole `i32` range makes the parse fail, whatever
/// the sign.
proof fn lemma_magnitude_out_of_range(s: Seq<u8>)
    requires
        decimal_micro_body(strip_sign(s)) > 2147483648,
    ensures
        spec_parse_micro(s) is None,
{
    assert(decimal_micro(s) < -2147483648 || decimal_micro(s) > 2147483647) by (nonlinear_arith)
        requires
            decimal_micro(s) == sign_of(s) * decimal_micro_body(strip_sign(s)),
            sign_of(s) == -1 || sign_of(s) == 1,
            decimal_micro_body(strip_sign(s)) > 2147483648,
    ;
}

fn pow10_small(k: usize) -> (r: i64)
    requires
        k <= 6,
    ensures
        r == pow10(k as nat),
{
    proof {
        reveal_with_fuel(pow10, 8);
    }
    if k == 0 {
        1
    } else if k == 1 {
        10
    } else if k == 2 {
        100
    } else if k == 3 {
        1000
    } else if k == 4 {
        10000
    } else if k == 5 {
        100000
    } else {
        1000000
    }
}

/// Positional split: the number denoted by `f` is the number denoted by
/// its first `m` digits, shifted past the remaining places, plus the
/// number denoted by the rest.
pub proof fn lemma_digits_split(f: Seq<u8>, m: int)
    requires
        0 <= m <= f.len(),
    ensures
        digits_val(f) == digits_val(f.take(m)) * pow10((f.len() - m) as nat) + digits_val(
            f.skip(m),
        ),
    decreases f.len(),
{
    if m == f.len() {
        assert(f.take(m) =~= f);
        assert(f.skip(m) =~= Seq::<u8>::empty());
    } else {
        let dl = f.drop_last();
        lemma_digits_split(dl, m);
        assert(dl.take(m) =~= f.take(m));
        assert(dl.skip(m) =~= f.skip(m).drop_last());
        assert(f.skip(m).len() > 0);
        assert(f.skip(m).last() == f.last());
        assert(pow10((f.len() - m) as nat) == 10 * pow10((f.len() - m - 1) as nat));
        assert(digits_val(f) == digits_val(f.take(m)) * pow10((f.len() - m) as nat) + digits_val(
            f.skip(m),
        )) by (nonlinear_arith)
            requires
                digits_val(f) == digits_val(dl) * 10 + (f.last() - DIGIT_ZERO),
                digits_val(dl) == digits_val(f.take(m)) * pow10((f.len() - m - 1) as nat)
                    + digits_val(f.skip(m).drop_last()),
                digits_val(f.skip(m)) == digits_val(f.skip(m).drop_last()) * 10 + (f.last()
                    - DIGIT_ZERO),
                pow10((f.len() - m) as nat) == 10 * pow10((f.len() - m - 1) as nat),
        ;
    }
}

/// The fraction digits round to the nearest micro-unit, half away from
/// zero: scaled by `pow10(f.len())`, twice the rounding error of
/// `frac_micro` against the exact value `digits_val(f) * 1000000 /
/// pow10(f.len())` stays within one.
pub proof fn lemma_frac_micro_half_ulp(f: Seq<u8>)
    requires
        all_digits(f),
    ensures
        -pow10(f.len()) <= 2 * (frac_micro(f) * pow10(f.len()) - digits_val(f) * 1000000),
        2 * (frac_micro(f) * pow10(f.len()) - digits_val(f) * 1000000) <= pow10(f.len()),
{
    let k = f.len();
    lemma_pow10_pos(k);
    if k <= 6 {
        lemma_pow10_adds((6 - k) as nat, k);
        assert(pow10(6) == 1000000) by {
            reveal_with_fuel(pow10, 8);
        }
        assert(frac_micro(f) * pow10(k as nat) == digits_val(f) * 1000000) by (nonlinear_arith)
            requires
                frac_micro(f) == digits_val(f) * pow10((6 - k) as nat),
                pow10((6 - k) as nat) * pow10(k as nat) == 1000000,
        ;
    } else {
        let f6 = f.take(6);
        let g = f.skip(6);
        let gl = (k - 6) as nat;
        let r: int = if f[6] >= DIGIT_FIVE {
            1
        } else {
            0
        };
        lemma_digits_split(f, 6);
        lemma_pow10_adds(gl, 6);
        assert(pow10(6) == 1000000) by {
            reveal_with_fuel(pow10, 8);
        }
        assert(all_digits(g)) by {
            assert(forall|i: int| 0 <= i < g.len() ==> #[trigger] g[i] == f[i + 6]);
        }
        lemma_digits_split(g, 1);
        assert(g.take(1) =~= seq![f[6]]);
        assert(seq![f[6]].drop_last() =~= Seq::<u8>::empty());
        assert(digits_val(Seq::<u8>::empty()) == 0);
        assert(digits_val(seq![f[6]]) == f[6] - DIGIT_ZERO);
        assert(all_digits(g.skip(1))) by {
            assert(forall|i: int|
                0 <= i < g.len() - 1 ==> #[trigger] g.skip(1)[i] == f[i + 7]);
        }
        lemma_digits_val_bound(g.skip(1));
        lemma_digits_val_bound(g);
        lemma_pow10_pos((gl - 1) as nat);
        let p = pow10((gl - 1) as nat);
        let hi = digits_val(g.skip(1));
        assert(pow10(gl) == 10 * p);
        assert(digits_val(g) == (f[6] - DIGIT_ZERO) * p + hi);
        assert(frac_micro(f) == digits_val(f6) + r);
        assert(frac_micro(f) * pow10(k as nat) - digits_val(f) * 1000000 == r * pow10(k as nat)
            - digits_val(g) * 1000000) by (nonlinear_arith)
            requires
                frac_micro(f) == digits_val(f6) + r,
                digits_val(f) == digits_val(f6) * pow10(gl) + digits_val(g),
                pow10(gl) * 1000000 == pow10(k as nat),
        ;
        if f[6] >= DIGIT_FIVE {
            assert(-pow10(k as nat) <= 2 * (pow10(k as nat) - digits_val(g) * 1000000) <= pow10(
                k as nat,
            )) by (nonlinear_arith)
                requires
                    digits_val(g) == (f[6] - DIGIT_ZERO) * p + hi,
                    DIGIT_FIVE <= f[6] <= DIGIT_NINE,
                    0 <= hi < p,
                    p >= 1,
                    pow10(k as nat) == 10 * p * 1000000,
            ;
        } else {
            assert(-pow10(k as nat) <= 2 * (0 - digits_val(g) * 1000000) <= pow10(k as nat))
                by (nonlinear_arith)
                requires
                    digits_val(g) == (f[6] - DIGIT_ZERO) * p + hi,
                    DIGIT_ZERO <= f[6] < DIGIT_FIVE,
                    0 <= hi < p,
                    p >= 1,
                    pow10(k as nat) == 10 * p * 1000000,
            ;
        }
    }
}

/// Ties round away from zero: when the digits beyond the sixth denote
/// exactly half a micro-unit, the magnitude rounds up, so the rounding
/// error is exactly plus one half — never down, as rounding half to even
/// or toward zero would have it.
pub proof fn lemma_tie_rounds_away_from_zero(f: Seq<u8>)
    requires
        all_digits(f),
        f.len() > 6,
        f[6] == DIGIT_FIVE,
        digits_val(f.skip(7)) == 0,
    ensures
        2 * (frac_micro(f) * pow10(f.len()) - digits_val(f) * 1000000) == pow10(f.len()),
{
    let k = f.len();
    let f6 = f.take(6);
    let g = f.skip(6);
    let gl = (k - 6) as nat;
    lemma_digits_split(f, 6);
    lemma_pow10_adds(gl, 6);
    assert(pow10(6) == 1000000) by {
        reveal_with_fuel(pow10, 8);
    }
    lemma_digits_split(g, 1);
    assert(g.take(1) =~= seq![f[6]]);
    assert(seq![f[6]].drop_last() =~= Seq::<u8>::empty());
    assert(digits_val(Seq::<u8>::empty()) == 0);
    assert(digits_val(seq![f[6]]) == f[6] - DIGIT_ZERO);
    assert(g.skip(1) =~= f.skip(7));
    let p = pow10((gl - 1) as nat);
    assert(pow10(gl) == 10 * p);
    assert(digits_val(g) == 5 * p);
    assert(frac_micro(f) == digits_val(f6) + 1);
    assert(2 * (frac_micro(f) * pow10(k as nat) - digits_val(f) * 1000000) == pow10(k as nat))
        by (nonlinear_arith)
        requires
            frac_micro(f) == digits_val(f6) + 1,
            digits_val(f) == digits_val(f6) * pow10(gl) + digits_val(g),
            digits_val(g) == 5 * p,
            pow10(gl) == 10 * p,
            pow10(gl) * 1000000 == pow10(k as nat),
    ;
}

/// Round-trip accuracy: encoding a decimal degree value as micro-degrees
/// and decoding again (dividing by 1,000,000) reproduces the original
/// value within half a micro-degree. For integer digits `ti` and fraction
/// digits `f`, the encoded magnitude is `digits_val(ti) * 1000000 +
/// frac_micro(f)` and the exact value is `digits_val(ti) +
/// digits_val(f) / pow10(f.len())`; scaled free of division by
/// `pow10(f.len())`, twice the difference stays within `pow10(f.len())`.
pub proof fn lemma_round_trip_half_micro(ti: Seq<u8>, f: Seq<u8>)
    requires
        all_digits(ti),
        all_digits(f),
    ensures
        ({
            let enc = digits_val(ti) * 1000000 + frac_micro(f);
            let num = digits_val(ti) * pow10(f.len()) + digits_val(f);
            -pow10(f.len()) <= 2 * (enc * pow10(f.len()) - num * 1000000) && 2 * (enc * pow10(
                f.len(),
            ) - num * 1000000) <= pow10(f.len())
        }),
{
    lemma_frac_micro_half_ulp(f);
    let enc = digits_val(ti) * 1000000 + frac_micro(f);
    let num = digits_val(ti) * pow10(f.len()) + digits_val(f);
    assert(enc * pow10(f.len()) - num * 1000000 == frac_micro(f) * pow10(f.len()) - digits_val(f)
        * 1000000) by (nonlinear_arith)
        requires
            enc == digits_val(ti) * 1000000 + frac_micro(f),
            num == digits_val(ti) * pow10(f.len()) + digits_val(f),
    ;
}

/// Idempotence of the encoding: decoded micro-degrees have at most six
/// fraction digits, and on such text the encoding is exact — no rounding
/// is left to do, so re-encoding a decoded value changes nothing.
pub proof fn lemma_encode_exact_upto_six(ti: Seq<u8>, f: Seq<u8>)
    requires
        all_digits(ti),
        all_digits(f),
        f.len() <= 6,
    ensures
        (digits_val(ti) * 1000000 + frac_micro(f)) * pow10(f.len()) == (digits_val(ti) * pow10(
            f.len(),
        ) + digits_val(f)) * 1000000,
{
    lemma_pow10_adds((6 - f.len()) as nat, f.len());
    assert(pow10(6) == 1000000) by {
        reveal_with_fuel(pow10, 8);
    }
    assert((digits_val(ti) * 1000000 + frac_micro(f)) * pow10(f.len()) == (digits_val(ti) * pow10(
        f.len(),
    ) + digits_val(f)) * 1000000) by (nonlinear_arith)
        requires
            frac_micro(f) == digits_val(f) * pow10((6 - f.len()) as nat),
            pow10((6 - f.len()) as nat) * pow10(f.len()) == 1000000,
    ;
}

/// The run of digits `s[lo..hi]` as a number, unless it exceeds `cap`.
#[verifier::loop_isolation(false)]
fn digits_value_capped(s: &Vec<u8>, lo: usize, hi: usize, cap: i64) -> (r: Option<i64>)
    requires
        lo <= hi <= s@.len(),
        all_digits(s@.subrange(lo as int, hi as int)),
        0 <= cap <= 2147483647,
    ensures
        ({
            let d = s@.subrange(lo as int, hi as int);
            match r {
                Some(v) => v == digits_val(d) && 0 <= v <= cap,
                None => digits_val(d) > cap,
            }
        }),
{
    let ghost d = s@.subrange(lo as int, hi as int);
    let mut acc: i64 = 0;
    let mut k: usize = lo;
    while k < hi
        invariant
            lo <= k <= hi,
            0 <= acc <= cap,
            acc == digits_val(d.take(k - lo)),
        decreases hi - k,
    {
        let b = s[k];
        proof {
            assert(d[k - lo] == s@[k as int]);
            assert(is_digit(d[k - lo]));
            assert(d.take(k - lo + 1).drop_last() =~= d.take((k - lo) as int));
            assert(d.take(k - lo + 1).last() == d[k - lo]);
        }
        let t = acc * 10 + ((b - DIGIT_ZERO) as i64);
        proof {
            assert(digits_val(d.take(k - lo + 1)) == digits_val(d.take((k - lo) as int)) * 10 + (
            d[k - lo] - DIGIT_ZERO));
        }
        if t > cap {
            proof {
                lemma_digits_val_take_le(d, k - lo + 1);
            }
            return None;
        }
        acc = t;
        k = k + 1;
    }
    proof {
        assert(d.take(hi - lo) =~= d);
    }
    Some(acc)
}

/// Scan the unsigned body `s[start..]`: whether it is digits around at
/// most one point, and where that point stands.
#[verifier::loop_isolation(false)]
#[verifier::rlimit(50)]
fn scan_shape(s: &Vec<u8>, start: usize) -> (r: (bool, Option<usize>))
    requires
        start <= s@.len(),
    ensures
        ({
            let t = s@.skip(start as int);
            match r {
                (false, _) => !is_decimal_body(t),
                (true, None) => spec_first_ix(t, DOT) is None && all_digits(t) && (is_decimal_body(
                    t,
                ) <==> t.len() > 0),
                (true, Some(p)) => start <= p < s@.len() && spec_first_ix(t, DOT) == Some(p - start)
                    && all_digits(t.take(p - start)) && all_digits(t.skip(p - start + 1)) && (
                is_decimal_body(t) <==> t.len() > 1),
            }
        }),
{
    let n = s.len();
    let ghost t = s@.skip(start as int);
    let mut dot: Option<usize> = None;
    let mut j: usize = start;
    while j < n
        invariant
            start <= j <= n,
            match dot {
                None => forall|k: int| start <= k < j ==> is_digit(#[trigger] s@[k]),
                Some(p) => start <= p < j && s@[p as int] == DOT && (forall|k: int|
                    start <= k < p ==> is_digit(#[trigger] s@[k])) && (forall|k: int|
                    p < k < j ==> is_digit(#[trigger] s@[k])),
            },
        decreases n - j,
    {
        let b = s[j];
        proof {
            assert(t[j - start] == s@[j as int]);
        }
        if b == DOT {
            match dot {
                Some(p) => {
                    proof {
                        lemma_first_ix_of(t, DOT, p - start);
                        assert(!is_digit(t.skip(p - start + 1)[j - p - 1]));
                        assert(!all_digits(t.skip(p - start + 1)));
                    }
                    return (false, None);
                },
                None => {
                    dot = Some(j);
                },
            }
        } else if !(DIGIT_ZERO <= b && b <= DIGIT_NINE) {
            proof {
                match dot {
                    Some(p) => {
                        lemma_first_ix_of(t, DOT, p - start);
                        assert(!is_digit(t.skip(p - start + 1)[j - p - 1]));
                        assert(!all_digits(t.skip(p - start + 1)));
                    },
                    None => {
                        lemma_first_ix_char(t, DOT);
                        match spec_first_ix(t, DOT) {
                            Some(di) => {
                                assert(s@[di + start] == DOT);
                                assert(di > j - start);
                                assert(!is_digit(t.take(di)[j - start]));
                                assert(!all_digits(t.take(di)));
                            },
                            None => {
                                assert(!is_digit(t[j - start]));
                                assert(!all_digits(t));
                            },
                        }
                    },
                }
            }
            return (false, None);
        }
        j = j + 1;
    }
    proof {
        match dot {
            None => {
                assert(forall|k: int|
                    0 <= k < t.len() ==> is_digit(#[trigger] t[k]) && t[k] != DOT);
                crate::bytes::lemma_first_ix_none(t, DOT);
            },
            Some(p) => {
                lemma_first_ix_of(t, DOT, p - start);
                assert(all_digits(t.take(p - start))) by {
                    assert(forall|k: int|
                        0 <= k < p - start ==> #[trigger] t.take(p - start)[k] == s@[k + start]);
                }
                assert(all_digits(t.skip(p - start + 1))) by {
                    assert(forall|k: int|
                        0 <= k < t.len() - (p - start + 1) ==> #[trigger] t.skip(p - start + 1)[k]
                            == s@[k + p + 1]);
                }
            },
        }
    }
    (true, dot)
}

/// Parse the decimal text of a degree value straight into micro-degrees.
///
/// The text is an optionally signed decimal number (`37.7785`, `-122`,
/// `.5`). Its value is scaled by 1,000,000 and rounded half away from
/// zero; the result is returned exactly when it fits an `i32`, and
/// anything else — malformed text, or a value out of range — yields
/// `None`.
#[verifier::loop_isolation(false)]
#[verifier::rlimit(100)]
pub fn parse_micro_degrees(s: &Vec<u8>) -> (r: Option<i32>)
    ensures
        r == spec_parse_micro(s@),
{
    let n = s.len();
    let mut i: usize = 0;
    let mut neg = false;
    if n > 0 && (s[0] == PLUS || s[0] == MINUS) {
        neg = s[0] == MINUS;
        i = 1;
    }
    let start = i;
    let ghost t = strip_sign(s@);
    proof {
        assert(t =~= s@.skip(start as int));
    }
    let (ok, dot) = scan_shape(s, start);
    if !ok {
        return None;
    }
    let int_end: usize;
    let frac_start: usize;
    match dot {
        None => {
            if start == n {
                return None;
            }
            int_end = n;
            frac_start = n;
        },
        Some(p) => {
            if n - start == 1 {
                return None;
            }
            int_end = p;
            frac_start = p + 1;
        },
    }
    let ghost ti = t.take(int_end - start);
    let ghost f = t.skip(frac_start - start);
    proof {
        match dot {
            None => {
                assert(ti =~= t);
                assert(f =~= Seq::<u8>::empty());
                assert(frac_micro(f) == 0);
            },
            Some(p) => {
            },
        }
        assert(is_decimal_body(t));
        assert(all_digits(ti));
        assert(all_digits(f));
        assert(decimal_micro_body(t) == digits_val(ti) * 1000000 + frac_micro(f));
        assert(ti =~= s@.subrange(start as int, int_end as int));
    }
    let acc = match digits_value_capped(s, start, int_end, 2147) {
        Some(v) => v,
        None => {
            proof {
                lemma_frac_micro_bounds(f);
                assert(decimal_micro_body(t) > 2147483648) by (nonlinear_arith)
                    requires
                        decimal_micro_body(t) == digits_val(ti) * 1000000 + frac_micro(f),
                        digits_val(ti) >= 2148,
                        frac_micro(f) >= 0,
                ;
                lemma_magnitude_out_of_range(s@);
            }
            return None;
        },
    };
    let flen = n - frac_start;
    let fend = if flen > 6 {
        frac_start + 6
    } else {
        n
    };
    let ghost f6 = f.take((fend - frac_start) as int);
    proof {
        assert(f6 =~= s@.subrange(frac_start as int, fend as int));
        assert(all_digits(f6));
    }
    let facc = match digits_value_capped(s, frac_start, fend, 999999) {
        Some(v) => v,
        None => {
            proof {
                lemma_digits_val_bound(f6);
                lemma_pow10_mono(f6.len(), 6);
                assert(pow10(6) == 1000000) by {
                    reveal_with_fuel(pow10, 8);
                }
                assert(false);
            }
            return None;
        },
    };
    let head: i64;
    let mut round: i64 = 0;
    if flen <= 6 {
        let p = pow10_small(6 - flen);
        proof {
            assert(f6 =~= f);
            lemma_digits_val_bound(f);
            lemma_pow10_pos((6 - flen) as nat);
            lemma_pow10_adds(flen as nat, (6 - flen) as nat);
            assert(pow10(6) == 1000000) by {
                reveal_with_fuel(pow10, 8);
            }
            assert(0 <= facc * p <= 1000000) by (nonlinear_arith)
                requires
                    0 <= facc < pow10(flen as nat),
                    p == pow10((6 - flen) as nat),
                    p >= 1,
                    pow10(flen as nat) * pow10((6 - flen) as nat) == 1000000,
            ;
        }
        head = facc * p;
        proof {
            assert(head == frac_micro(f));
        }
    } else {
        head = facc;
        proof {
            assert(f.take(6) =~= f6);
            assert(f[6] == t[frac_start + 6 - start]);
            assert(t[frac_start + 6 - start] == s@[frac_start + 6]);
        }
        if s[frac_start + 6] >= DIGIT_FIVE {
            round = 1;
        }
        proof {
            assert(head + round == frac_micro(f));
        }
    }
    proof {
        lemma_frac_micro_bounds(f);
    }
    let mag: i64 = acc * 1000000 + head + round;
    proof {
        assert(mag == decimal_micro_body(t));
        assert(decimal_micro(s@) == sign_of(s@) * decimal_micro_body(t));
        if neg {
            assert(sign_of(s@) == -1);
            assert(decimal_micro(s@) == -mag) by (nonlinear_arith)
                requires
                    decimal_micro(s@) == sign_of(s@) * decimal_micro_body(t),
                    sign_of(s@) == -1,
                    mag == decimal_micro_body(t),
            ;
        } else {
            assert(sign_of(s@) == 1);
            assert(decimal_micro(s@) == mag) by (nonlinear_arith)
                requires
                    decimal_micro(s@) == sign_of(s@) * decimal_micro_body(t),
                    sign_of(s@) == 1,
                    mag == decimal_micro_body(t),
            ;
        }
    }
    if neg {
        let v = -mag;
        if v < -2147483648 {
            None
        } else {
            Some(v as i32)
        }
    } else {
        if mag > 2147483647 {
            None
        } else {
            Some(mag as i32)
        }
    }
}

} // verus!
