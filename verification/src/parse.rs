//! Parsing of one framed text span as a base-10 decimal value.
//!
//! A frame is accepted when it is an optional sign, one or more integer
//! digits, and an optional fractional part of at most six digits, and its
//! magnitude is at most one billion units. The value is returned exactly, as
//! a signed count of millionths of a unit ("micros"). Any other frame is
//! telemetry line noise and is discarded by the caller.

use vstd::prelude::*;

verus! {

/// Largest accepted magnitude, in millionths of a unit (one billion units).
pub const VALUE_LIMIT: i64 = 1_000_000_000_000_000;

pub open spec fn is_digit(b: u8) -> bool {
    48 <= b && b <= 57
}

pub open spec fn digit_val(b: u8) -> int {
    b as int - 48
}

pub open spec fn all_digits(s: Seq<u8>) -> bool {
    forall|i: int| 0 <= i < s.len() ==> is_digit(#[trigger] s[i])
}

/// Base-10 value of a digit string, most significant digit first.
pub open spec fn dti(s: Seq<u8>) -> int
    decreases s.len(),
{
    if s.len() == 0 {
        0
    } else {
        dti(s.drop_last()) * 10 + digit_val(s.last())
    }
}

pub open spec fn pow10(n: nat) -> int
    decreases n,
{
    if n == 0 {
        1
    } else {
        10 * pow10((n - 1) as nat)
    }
}

/// Index of the first `.` in `s`, or `s.len()` when there is none.
pub open spec fn first_dot(s: Seq<u8>) -> int
    decreases s.len(),
{
    if s.len() == 0 {
        0
    } else if s[0] == 46 {
        0
    } else {
        1 + first_dot(s.skip(1))
    }
}

/// The digits before the `.` (the whole string when there is no `.`).
pub open spec fn int_part(u: Seq<u8>) -> Seq<u8> {
    u.take(first_dot(u))
}

/// The digits after the `.`, empty when there is no `.`.
pub open spec fn frac_part(u: Seq<u8>) -> Seq<u8> {
    if first_dot(u) == u.len() {
        Seq::empty()
    } else {
        u.skip(first_dot(u) + 1)
    }
}

/// The unsigned body of a frame: at least one integer digit, and at most six
/// fractional digits. A second `.` lands in the fractional part and fails
/// `all_digits`.
pub open spec fn valid_unsigned(u: Seq<u8>) -> bool {
    &&& int_part(u).len() >= 1
    &&& all_digits(int_part(u))
    &&& all_digits(frac_part(u))
    &&& frac_part(u).len() <= 6
}

/// Value of a valid unsigned body in millionths: the digit string with the
/// `.` removed, scaled so that six fractional digits mean unit scale.
pub open spec fn unsigned_micros(u: Seq<u8>) -> int {
    dti(int_part(u) + frac_part(u)) * pow10((6 - frac_part(u).len()) as nat)
}

/// The frame body after an optional leading sign.
pub open spec fn unsigned_of(s: Seq<u8>) -> Seq<u8> {
    if s.len() >= 1 && (s[0] == 43 || s[0] == 45) {
        s.skip(1)
    } else {
        s
    }
}

/// Frames that parse as a value: sign, digits, bounded magnitude.
pub open spec fn valid_number(s: Seq<u8>) -> bool {
    &&& s.len() >= 1
    &&& valid_unsigned(unsigned_of(s))
    &&& unsigned_micros(unsigned_of(s)) <= VALUE_LIMIT as int
}

/// The exact value of a valid frame, in millionths of a unit.
pub open spec fn value_micros(s: Seq<u8>) -> int {
    if s.len() >= 1 && s[0] == 45 {
        -unsigned_micros(unsigned_of(s))
    } else {
        unsigned_micros(unsigned_of(s))
    }
}

proof fn lemma_dti_nonneg(s: Seq<u8>)
    requires
        all_digits(s),
    ensures
        dti(s) >= 0,
    decreases s.len(),
{
    if s.len() > 0 {
        assert(all_digits(s.drop_last()));
        lemma_dti_nonneg(s.drop_last());
    }
}

proof fn lemma_pow10_pos(n: nat)
    ensures
        pow10(n) >= 1,
    decreases n,
{
    if n > 0 {
        lemma_pow10_pos((n - 1) as nat);
    }
}

proof fn lemma_dti_step(p: Seq<u8>, d: u8)
    ensures
        dti(p.push(d)) == dti(p) * 10 + digit_val(d),
{
    assert(p.push(d).drop_last() =~= p);
    assert(p.push(d).last() == d);
}

/// Properties of the first `.` index: in range, a `.` where it points (when
/// in range), and no `.` before it.
proof fn lemma_first_dot(s: Seq<u8>)
    ensures
        0 <= first_dot(s) <= s.len(),
        first_dot(s) < s.len() ==> s[first_dot(s)] == 46,
        forall|i: int| 0 <= i < first_dot(s) ==> s[i] != 46,
    decreases s.len(),
{
    if s.len() > 0 && s[0] != 46 {
        lemma_first_dot(s.skip(1));
        assert forall|i: int| 0 <= i < first_dot(s) implies s[i] != 46 by {
            if i > 0 {
                assert(s.skip(1)[i - 1] == s[i]);
            }
        }
        if first_dot(s) < s.len() {
            assert(s.skip(1)[first_dot(s) - 1] == s[first_dot(s)]);
        }
    }
}

/// Scaling a too-large digit value by a positive power of ten keeps it too
/// large.
proof fn lemma_scale_keeps_over(a: int, s: int, l: int)
    requires
        a > l,
        a >= 0,
        s >= 1,
    ensures
        a * s >= a,
{
    assert(a * s >= a * 1) by (nonlinear_arith)
        requires
            a >= 0,
            s >= 1,
    ;
}

proof fn lemma_mul_over(m: int, limit: int, scale: int, l: int)
    requires
        m > limit,
        limit * scale == l,
        scale >= 1,
    ensures
        m * scale > l,
{
    assert(m * scale > limit * scale) by (nonlinear_arith)
        requires
            m > limit,
            scale >= 1,
    ;
}

proof fn lemma_mul_under(m: int, limit: int, scale: int, l: int)
    requires
        0 <= m <= limit,
        limit * scale == l,
        scale >= 1,
    ensures
        0 <= m * scale <= l,
{
    assert(0 <= m * scale <= limit * scale) by (nonlinear_arith)
        requires
            0 <= m <= limit,
            scale >= 1,
    ;
}

/// Parses one trimmed frame as a decimal value in millionths of a unit.
/// Returns the exact value of every frame the grammar accepts, and `None`
/// for every other frame.
pub fn parse_micros(s: &Vec<u8>) -> (r: Option<i64>)
    ensures
        r is Some <==> valid_number(s@),
        r matches Some(v) ==> v == value_micros(s@) && -VALUE_LIMIT <= v <= VALUE_LIMIT,
{
    let n = s.len();
    if n == 0 {
        return None;
    }
    let neg = s[0] == 45;
    let start: usize = if s[0] == 43 || s[0] == 45 {
        1
    } else {
        0
    };
    let ghost u = unsigned_of(s@);
    proof {
        assert(u =~= s@.skip(start as int));
        lemma_first_dot(u);
    }

    // Integer digits.
    let mut i = start;
    let mut mant: i64 = 0;
    let mut too_big = false;
    while i < n && 48 <= s[i] && s[i] <= 57
        invariant
            start <= i <= n,
            n == s@.len(),
            start <= 1,
            u =~= s@.skip(start as int),
            all_digits(u.take(i - start)),
            !too_big ==> mant == dti(u.take(i - start)) && 0 <= mant <= VALUE_LIMIT,
            too_big ==> dti(u.take(i - start)) > VALUE_LIMIT,
        decreases n - i,
    {
        let ghost k = i - start;
        let d = s[i] - 48;
        proof {
            assert(u[k] == s@[i as int]);
            assert(u.take(k + 1) =~= u.take(k).push(u[k]));
            lemma_dti_step(u.take(k), u[k]);
            lemma_dti_nonneg(u.take(k));
        }
        if !too_big {
            mant = mant * 10 + (d as i64);
            if mant > VALUE_LIMIT {
                too_big = true;
                mant = 0;
            }
        }
        i += 1;
    }
    let ghost di = i - start;
    if i == start {
        // No integer digit: the unsigned body is empty, starts with `.`,
        // or starts with a byte outside the grammar.
        proof {
            if valid_unsigned(u) {
                assert(int_part(u).len() >= 1);
                assert(u.len() >= 1);
                assert(!is_digit(u[0]) && u[0] != 46 ==> !is_digit(int_part(u)[0]));
            }
        }
        return None;
    }

    if i == n {
        // Digits to the end: no fractional part.
        proof {
            assert(u.take(di) =~= u);
            if first_dot(u) < u.len() {
                assert(is_digit(u[first_dot(u)]));
            }
            assert(first_dot(u) == u.len());
            assert(int_part(u) =~= u);
            assert(frac_part(u).len() == 0);
            assert(int_part(u) + frac_part(u) =~= u);
            reveal_with_fuel(pow10, 7);
            lemma_dti_nonneg(u);
            if too_big {
                lemma_scale_keeps_over(dti(u), pow10(6), VALUE_LIMIT as int);
            }
        }
        if too_big {
            return None;
        }
        if mant > 1_000_000_000 {
            proof {
                lemma_mul_over(mant as int, 1_000_000_000, 1_000_000, VALUE_LIMIT as int);
            }
            return None;
        }
        let micros = mant * 1_000_000;
        return Some(if neg { -micros } else { micros });
    }

    if s[i] != 46 {
        // A byte that is neither digit nor `.` inside the integer part.
        proof {
            if valid_unsigned(u) {
                assert(first_dot(u) != di);
                if first_dot(u) < di {
                    assert(u.take(di)[first_dot(u)] == u[first_dot(u)]);
                    assert(is_digit(u[first_dot(u)]));
                } else {
                    assert(int_part(u)[di] == u[di]);
                }
            }
        }
        return None;
    }

    // Fractional digits after the `.` at index `di` of the unsigned body.
    proof {
        assert(u[di] == 46);
        if first_dot(u) < di {
            assert(u.take(di)[first_dot(u)] == u[first_dot(u)]);
            assert(is_digit(u[first_dot(u)]));
        }
        assert(first_dot(u) == di);
    }
    let ghost ip = int_part(u);
    let ghost fp = frac_part(u);
    proof {
        assert(ip =~= u.take(di));
        assert(fp =~= u.skip(di + 1));
        assert(fp.len() == n - start - di - 1);
    }
    i += 1;
    let mut fc: usize = 0;
    while i < n && 48 <= s[i] && s[i] <= 57 && fc < 6
        invariant
            n == s@.len(),
            start <= 1,
            start + di + 1 <= i <= n,
            i == start + di + 1 + fc,
            fc <= 6,
            u =~= s@.skip(start as int),
            ip =~= u.take(di),
            fp =~= u.skip(di + 1),
            1 <= di,
            di + 1 <= u.len(),
            all_digits(ip),
            all_digits(fp.take(fc as int)),
            !too_big ==> mant == dti(ip + fp.take(fc as int)) && 0 <= mant <= VALUE_LIMIT,
            too_big ==> dti(ip + fp.take(fc as int)) > VALUE_LIMIT,
        decreases n - i,
    {
        let ghost k = fc as int;
        let d = s[i] - 48;
        proof {
            assert(fp[k] == s@[i as int]);
            assert(ip + fp.take(k + 1) =~= (ip + fp.take(k)).push(fp[k]));
            lemma_dti_step(ip + fp.take(k), fp[k]);
            lemma_dti_nonneg(ip + fp.take(k));
        }
        if !too_big {
            mant = mant * 10 + (d as i64);
            if mant > VALUE_LIMIT {
                too_big = true;
                mant = 0;
            }
        }
        fc += 1;
        i += 1;
    }

    if i < n {
        // Either a seventh fractional digit or a byte outside the grammar.
        proof {
            if valid_unsigned(u) {
                if fc < 6 {
                    assert(fp[fc as int] == s@[i as int]);
                    assert(is_digit(fp[fc as int]));
                } else {
                    assert(fp.len() > 6);
                }
            }
        }
        return None;
    }

    // Clean end: exactly `fc` fractional digits.
    proof {
        assert(fp.take(fc as int) =~= fp);
        assert(valid_unsigned(u));
        reveal_with_fuel(pow10, 7);
        lemma_pow10_pos((6 - fc) as nat);
        lemma_dti_nonneg(ip + fp);
        if too_big {
            lemma_scale_keeps_over(dti(ip + fp), pow10((6 - fc) as nat), VALUE_LIMIT as int);
        }
    }
    if too_big {
        return None;
    }
    let (scale, limit): (i64, i64) = if fc == 0 {
        (1_000_000, 1_000_000_000)
    } else if fc == 1 {
        (100_000, 10_000_000_000)
    } else if fc == 2 {
        (10_000, 100_000_000_000)
    } else if fc == 3 {
        (1_000, 1_000_000_000_000)
    } else if fc == 4 {
        (100, 10_000_000_000_000)
    } else if fc == 5 {
        (10, 100_000_000_000_000)
    } else {
        (1, 1_000_000_000_000_000)
    };
    proof {
        reveal_with_fuel(pow10, 7);
        assert(scale == pow10((6 - fc) as nat));
        assert(limit as int * scale as int == VALUE_LIMIT as int);
    }
    if mant > limit {
        proof {
            lemma_mul_over(mant as int, limit as int, scale as int, VALUE_LIMIT as int);
        }
        return None;
    }
    proof {
        lemma_mul_under(mant as int, limit as int, scale as int, VALUE_LIMIT as int);
    }
    let micros = mant * scale;
    Some(if neg { -micros } else { micros })
}

} // verus!
