//! Fixed-point arithmetic on program values.
use vstd::prelude::*;

verus! {

/// Fixed-point units in one whole unit: values are counted in millionths.
pub const SCALE: i64 = 1000000;

/// Largest magnitude of a stored value.
pub const NUM_MAX: i64 = 9223372036854775807;

/// A value fits the fixed-point range (symmetric, so negation never leaves it).
pub open spec fn in_range(v: int) -> bool {
    -NUM_MAX <= v <= NUM_MAX
}

/// Division rounding toward zero, as integer division in Rust does.
pub open spec fn trunc_div(a: int, b: int) -> int {
    if b == 0 {
        0
    } else if a >= 0 && b > 0 {
        a / b
    } else if a >= 0 {
        -(a / (-b))
    } else if b > 0 {
        -((-a) / b)
    } else {
        (-a) / (-b)
    }
}

/// Remainder taking the sign of the dividend.
pub open spec fn trunc_rem(a: int, b: int) -> int {
    a - b * trunc_div(a, b)
}

/// The binary operators of an expression.
#[derive(Clone, Copy, Debug, PartialEq, Eq, Structural)]
pub enum Op {
    Add,
    Sub,
    Mul,
    Div,
    IntDiv,
    Mod,
}

/// The exact result of an operator on two fixed-point values, before the range check.
pub open spec fn op_exact(op: Op, a: int, b: int) -> Option<int> {
    match op {
        Op::Add => Some(a + b),
        Op::Sub => Some(a - b),
        Op::Mul => Some(trunc_div(a * b, SCALE as int)),
        Op::Div => if b == 0 {
            None
        } else {
            Some(trunc_div(a * SCALE, b))
        },
        Op::IntDiv => if trunc_div(b, SCALE as int) == 0 {
            None
        } else {
            Some(
                trunc_div(trunc_div(a, SCALE as int), trunc_div(b, SCALE as int)) * SCALE,
            )
        },
        Op::Mod => if b == 0 {
            None
        } else {
            Some(trunc_rem(a, b))
        },
    }
}

/// The result of an operator: `None` where it divides by zero or leaves the range.
pub open spec fn op_result(op: Op, a: int, b: int) -> Option<int> {
    match op_exact(op, a, b) {
        Some(v) => if in_range(v) {
            Some(v)
        } else {
            None
        },
        None => None,
    }
}

/// Division of two non-negative `i128` values.
fn div_nonneg(a: i128, b: i128) -> (r: i128)
    requires
        a >= 0,
        b > 0,
    ensures
        r == a / b,
        r >= 0,
{
    a / b
}

/// Truncating division on `i128`, for operands of at most 127 bits' magnitude.
fn trunc_div_i128(a: i128, b: i128) -> (r: i128)
    requires
        b != 0,
        a > i128::MIN,
        b > i128::MIN,
    ensures
        r == trunc_div(a as int, b as int),
{
    if a >= 0 && b > 0 {
        div_nonneg(a, b)
    } else if a >= 0 {
        -div_nonneg(a, -b)
    } else if b > 0 {
        -div_nonneg(-a, b)
    } else {
        div_nonneg(-a, -b)
    }
}

proof fn lemma_div_bound(a: int, b: int)
    requires
        a >= 0,
        b >= 1,
    ensures
        0 <= a / b <= a,
{
    vstd::arithmetic::div_mod::lemma_div_is_ordered_by_denominator(a, 1, b);
    vstd::arithmetic::div_mod::lemma_div_pos_is_pos(a, b);
}

proof fn lemma_trunc_div_bound(a: int, b: int)
    requires
        b != 0,
    ensures
        -(if a >= 0 { a } else { -a }) <= trunc_div(a, b) <= (if a >= 0 { a } else { -a }),
{
    let aa = if a >= 0 { a } else { -a };
    let bb = if b >= 0 { b } else { -b };
    lemma_div_bound(aa, bb);
}

/// Applies a binary operator to two in-range values; `None` where the result
/// divides by zero or leaves the range.
pub fn apply_op(op: Op, a: i64, b: i64) -> (r: Option<i64>)
    requires
        in_range(a as int),
        in_range(b as int),
    ensures
        r matches Some(v) ==> op_result(op, a as int, b as int) == Some(v as int),
        r is None ==> op_result(op, a as int, b as int) is None,
{
    let wa = a as i128;
    let wb = b as i128;
    let s = SCALE as i128;
    let exact: Option<i128> = match op {
        Op::Add => Some(wa + wb),
        Op::Sub => Some(wa - wb),
        Op::Mul => {
            assert(-(NUM_MAX as int) * (NUM_MAX as int) <= (a as int) * (b as int) <= (NUM_MAX as int) * (NUM_MAX as int)) by (nonlinear_arith)
                requires in_range(a as int), in_range(b as int);
            Some(trunc_div_i128(wa * wb, s))
        },
        Op::Div => {
            if b == 0 {
                None
            } else {
                assert(-(NUM_MAX as int) * 1000000 <= (a as int) * 1000000 <= (NUM_MAX as int) * 1000000) by (nonlinear_arith)
                    requires in_range(a as int);
                Some(trunc_div_i128(wa * s, wb))
            }
        },
        Op::IntDiv => {
            let ta = trunc_div_i128(wa, s);
            let tb = trunc_div_i128(wb, s);
            if tb == 0 {
                None
            } else {
                proof {
                    lemma_trunc_div_bound(a as int, SCALE as int);
                    lemma_trunc_div_bound(ta as int, tb as int);
                }
                let q = trunc_div_i128(ta, tb);
                assert(-(NUM_MAX as int) * 1000000 <= (q as int) * 1000000 <= (NUM_MAX as int) * 1000000) by (nonlinear_arith)
                    requires -(NUM_MAX as int) <= q <= NUM_MAX as int;
                Some(q * s)
            }
        },
        Op::Mod => {
            if b == 0 {
                None
            } else {
                let q = trunc_div_i128(wa, wb);
                proof {
                    lemma_trunc_div_bound(a as int, b as int);
                }
                assert(-(NUM_MAX as int) * (NUM_MAX as int) <= (b as int) * (q as int) <= (NUM_MAX as int) * (NUM_MAX as int)) by (nonlinear_arith)
                    requires in_range(b as int), in_range(q as int);
                Some(wa - wb * q)
            }
        },
    };
    match exact {
        Some(v) => {
            if -(NUM_MAX as i128) <= v && v <= NUM_MAX as i128 {
                Some(v as i64)
            } else {
                None
            }
        },
        None => None,
    }
}

/// `a DIV b` truncates both operands to whole numbers, divides them rounding
/// toward zero, and gives the quotient back as a whole number.
pub proof fn law_int_div_truncates(a: int, b: int)
    requires
        in_range(a),
        in_range(b),
        trunc_div(b, SCALE as int) != 0,
    ensures
        op_result(Op::IntDiv, a, b) == Some(
            trunc_div(trunc_div(a, SCALE as int), trunc_div(b, SCALE as int)) * SCALE,
        ),
{
    let ta = trunc_div(a, SCALE as int);
    let tb = trunc_div(b, SCALE as int);
    let aa = if a >= 0 { a } else { -a };
    lemma_div_bound(aa, SCALE as int);
    vstd::arithmetic::div_mod::lemma_fundamental_div_mod(aa, SCALE as int);
    let ma = if ta >= 0 { ta } else { -ta };
    assert(ma == aa / (SCALE as int));
    lemma_trunc_div_bound(ta, tb);
    let q = trunc_div(ta, tb);
    assert(ma * SCALE <= aa) by {
        vstd::arithmetic::div_mod::lemma_fundamental_div_mod(aa, SCALE as int);
        vstd::arithmetic::div_mod::lemma_mod_pos_bound(aa, SCALE as int);
    }
    assert(-(ma * SCALE) <= q * SCALE <= ma * SCALE) by (nonlinear_arith)
        requires -ma <= q <= ma;
}

/// The digit that a character stands for.
pub open spec fn digit_of(c: char) -> int {
    (c as u32) as int - ('0' as u32) as int
}

pub open spec fn is_digit(c: char) -> bool {
    '0' <= c && c <= '9'
}

pub open spec fn all_digits(s: Seq<char>) -> bool {
    forall|i: int| 0 <= i < s.len() ==> is_digit(#[trigger] s[i])
}

/// The whole number that a run of decimal digits writes.
pub open spec fn digits_value(s: Seq<char>) -> int
    decreases s.len(),
{
    if s.len() == 0 {
        0
    } else {
        digits_value(s.drop_last()) * 10 + digit_of(s.last())
    }
}

/// The first six fraction digits, padded with zeros: the fraction in millionths.
pub open spec fn fraction_digits(f: Seq<char>) -> Seq<char> {
    if f.len() >= 6 {
        f.take(6)
    } else {
        f + Seq::new((6 - f.len()) as nat, |i: int| '0')
    }
}

/// Position of the first `.` in `s`, or `s.len()` where there is none.
pub open spec fn dot_index(s: Seq<char>) -> int
    decreases s.len(),
{
    if s.len() == 0 {
        0
    } else if s[0] == '.' {
        0
    } else {
        1 + dot_index(s.drop_first())
    }
}

/// The fixed-point value of a decimal literal: an optional sign, digits, and an
/// optional `.` followed by digits, with at least one digit. Fraction digits
/// past the sixth are dropped. `None` for any other text or a value out of range.
pub open spec fn literal_value(s: Seq<char>) -> Option<int> {
    let neg = s.len() > 0 && s[0] == '-';
    let body = if s.len() > 0 && (s[0] == '-' || s[0] == '+') {
        s.drop_first()
    } else {
        s
    };
    let d = dot_index(body);
    let whole = body.take(d);
    let frac = if d < body.len() {
        body.skip(d + 1)
    } else {
        Seq::empty()
    };
    let mag = digits_value(whole) * SCALE + digits_value(fraction_digits(frac));
    if all_digits(whole) && all_digits(frac) && whole.len() + frac.len() > 0 && mag <= NUM_MAX {
        Some(if neg { -mag } else { mag })
    } else {
        None
    }
}

pub open spec fn pow10(k: nat) -> int
    decreases k,
{
    if k == 0 {
        1
    } else {
        10 * pow10((k - 1) as nat)
    }
}

proof fn lemma_pow10_small(k: nat)
    requires
        k < 6,
    ensures
        pow10(k) <= 100000,
{
    reveal_with_fuel(pow10, 7);
    if k == 0 {
    } else if k == 1 {
    } else if k == 2 {
    } else if k == 3 {
    } else if k == 4 {
    } else {
    }
}

proof fn lemma_fraction_digits(f: Seq<char>)
    requires
        all_digits(f),
    ensures
        all_digits(fraction_digits(f)),
        fraction_digits(f).len() == 6,
{
    let fd = fraction_digits(f);
    assert forall|i: int| 0 <= i < fd.len() implies is_digit(#[trigger] fd[i]) by {
        if i < f.len() {
            assert(fd[i] == f[i]);
        }
    }
}

proof fn lemma_digits_take_step(s: Seq<char>, j: int)
    requires
        0 <= j < s.len(),
    ensures
        digits_value(s.take(j + 1)) == digits_value(s.take(j)) * 10 + digit_of(s[j]),
{
    assert(s.take(j + 1).drop_last() =~= s.take(j));
}

proof fn lemma_digits_nonneg(s: Seq<char>)
    requires
        all_digits(s),
    ensures
        digits_value(s) >= 0,
    decreases s.len(),
{
    if s.len() > 0 {
        assert(all_digits(s.drop_last())) by {
            assert forall|i: int| 0 <= i < s.drop_last().len() implies is_digit(#[trigger] s.drop_last()[i]) by {
                assert(s.drop_last()[i] == s[i]);
            }
        }
        lemma_digits_nonneg(s.drop_last());
    }
}

proof fn lemma_dot_index(s: Seq<char>, d: int)
    requires
        0 <= d <= s.len(),
        forall|i: int| 0 <= i < d ==> s[i] != '.',
        d < s.len() ==> s[d] == '.',
    ensures
        dot_index(s) == d,
    decreases s.len(),
{
    if s.len() > 0 && s[0] != '.' {
        assert forall|i: int| 0 <= i < d - 1 implies s.drop_first()[i] != '.' by {
            assert(s.drop_first()[i] == s[i + 1]);
        }
        lemma_dot_index(s.drop_first(), d - 1);
    }
}

/// The characters of a string, one by one.
pub fn chars_of(s: &str) -> (r: Vec<char>)
    ensures
        r@ == s@,
{
    let n = s.unicode_len();
    let mut r: Vec<char> = Vec::new();
    let mut i: usize = 0;
    while i < n
        invariant
            n == s@.len(),
            i <= n,
            r@ == s@.take(i as int),
        decreases n - i,
    {
        r.push(s.get_char(i));
        i += 1;
        assert(r@ =~= s@.take(i as int));
    }
    assert(s@.take(n as int) =~= s@);
    r
}

/// Reads a decimal literal as a fixed-point value (see `literal_value`).
pub fn parse_literal(text: &str) -> (r: Option<i64>)
    ensures
        r matches Some(v) ==> literal_value(text@) == Some(v as int),
        r matches Some(v) ==> in_range(v as int),
        r is None ==> literal_value(text@) is None,
{
    let c = chars_of(text);
    let n = c.len();
    let ghost s = text@;
    let mut start: usize = 0;
    let mut neg = false;
    if n > 0 && (c[0] == '-' || c[0] == '+') {
        start = 1;
        neg = c[0] == '-';
    }
    let ghost body = if s.len() > 0 && (s[0] == '-' || s[0] == '+') {
        s.drop_first()
    } else {
        s
    };
    assert(body =~= s.skip(start as int));
    // whole part, up to the first dot
    let mut i: usize = start;
    let mut whole: i128 = 0;
    let mut too_big = false;
    let mut bad = false;
    let ghost mut bad_at: int = 0;
    while i < n && c[i] != '.'
        invariant
            c@ == s,
            n == s.len(),
            start <= i <= n,
            body == s.skip(start as int),
            forall|j: int| start <= j < i ==> s[j] != '.',
            !bad ==> all_digits(body.take(i - start)),
            bad ==> 0 <= bad_at < i - start && !is_digit(body[bad_at]),
            !bad && !too_big ==> whole == digits_value(body.take(i - start)),
            !bad && too_big ==> digits_value(body.take(i - start)) > 100000000000000,
            0 <= whole <= 100000000000000,
        decreases n - i,
    {
        let ch = c[i];
        let ghost k = i - start;
        if !bad && !('0' <= ch && ch <= '9') {
            bad = true;
            proof {
                bad_at = k;
                assert(body[k] == s[i as int]);
            }
        }
        if !bad {
            proof {
                lemma_digits_take_step(body, k);
                assert forall|j: int| 0 <= j < k + 1 implies is_digit(#[trigger] body.take(k + 1)[j]) by {
                    if j < k {
                        assert(body.take(k + 1)[j] == body.take(k)[j]);
                    }
                }
                lemma_digits_nonneg(body.take(k));
            }
            if !too_big {
                let d = (ch as u32 - '0' as u32) as i128;
                let w = whole * 10 + d;
                if w > 100000000000000 {
                    too_big = true;
                } else {
                    whole = w;
                }
            }
        }
        i += 1;
    }
    let d = i;
    proof {
        assert forall|j: int| 0 <= j < d - start implies body[j] != '.' by {
            assert(body[j] == s[j + start]);
        }
        lemma_dot_index(body, d - start);
    }
    let ghost dd = dot_index(body);
    let ghost wseq = body.take(dd);
    let ghost frac = if dd < body.len() {
        body.skip(dd + 1)
    } else {
        Seq::<char>::empty()
    };
    let ghost fd = fraction_digits(frac);
    if bad {
        assert(wseq[bad_at] == body[bad_at]);
        return None;
    }
    if too_big {
        proof {
            if all_digits(wseq) && all_digits(frac) {
                lemma_fraction_digits(frac);
                lemma_digits_nonneg(fd);
                assert(digits_value(wseq) * SCALE >= 100000000000000 * SCALE) by (nonlinear_arith)
                    requires digits_value(wseq) > 100000000000000;
            }
        }
        return None;
    }
    let fstart: usize = if d < n { d + 1 } else { n };
    assert(frac =~= s.skip(fstart as int));
    // fraction digits: all must be digits
    let mut j: usize = fstart;
    while j < n
        invariant
            c@ == s,
            n == s.len(),
            fstart <= j <= n,
            frac == s.skip(fstart as int),
            all_digits(frac.take(j - fstart)),
            s == text@,
            body == (if s.len() > 0 && (s[0] == '-' || s[0] == '+') {
                s.drop_first()
            } else {
                s
            }),
            frac == (if dot_index(body) < body.len() {
                body.skip(dot_index(body) + 1)
            } else {
                Seq::<char>::empty()
            }),
        decreases n - j,
    {
        let ch = c[j];
        if !('0' <= ch && ch <= '9') {
            assert(frac[j - fstart] == s[j as int]);
            return None;
        }
        proof {
            assert forall|t: int| 0 <= t < j + 1 - fstart implies is_digit(#[trigger] frac.take(j + 1 - fstart)[t]) by {
                if t < j - fstart {
                    assert(frac.take(j + 1 - fstart)[t] == frac.take(j - fstart)[t]);
                } else {
                    assert(frac.take(j + 1 - fstart)[t] == s[j as int]);
                }
            }
        }
        j += 1;
    }
    assert(frac.take(n - fstart) =~= frac);
    proof {
        lemma_fraction_digits(frac);
    }
    if (d - start) + (n - fstart) == 0 {
        return None;
    }
    // the first six fraction digits, padded with zeros
    let mut f: i128 = 0;
    let mut k: usize = 0;
    while k < 6
        invariant
            c@ == s,
            n == s.len(),
            fstart <= n,
            frac == s.skip(fstart as int),
            fd == fraction_digits(frac),
            all_digits(frac),
            all_digits(fd),
            fd.len() == 6,
            k <= 6,
            f == digits_value(fd.take(k as int)),
            0 <= f < pow10(k as nat),
        decreases 6 - k,
    {
        let ch = if k < n - fstart {
            c[fstart + k]
        } else {
            '0'
        };
        proof {
            assert(fd.len() == 6);
            if k < frac.len() {
                assert(fd[k as int] == frac[k as int]);
            } else {
                assert(fd[k as int] == '0');
            }
            lemma_digits_take_step(fd, k as int);
            assert(pow10((k + 1) as nat) == 10 * pow10(k as nat));
            lemma_pow10_small(k as nat);
        }
        f = f * 10 + (ch as u32 - '0' as u32) as i128;
        k += 1;
    }
    assert(fd.take(6) =~= fd);
    assert(pow10(6) == 1000000) by {
        reveal_with_fuel(pow10, 7);
    }
    let mag = whole * 1000000 + f;
    if mag > NUM_MAX as i128 {
        return None;
    }
    let m = mag as i64;
    if neg {
        Some(-m)
    } else {
        Some(m)
    }
}

} // verus!
