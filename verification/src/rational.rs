use vstd::prelude::*;

verus! {

use crate::strutil::find_char_from;

/// Magnitude bound kept by parsed numbers so that later products stay
/// within `i128`.
pub const DEC_BOUND: i128 = 1_000_000_000_000_000_000;

/// An exact number: `num / den` with `den > 0`.
///
/// Payload numbers and review ratings are carried as exact fractions, so the
/// rating arithmetic and its clamping are stated and proved without rounding.
#[derive(Debug, Clone, Copy, PartialEq, Eq, Structural)]
pub struct Rational {
    pub num: i128,
    pub den: i128,
}

impl Rational {
    /// Basic well-formedness: a positive denominator.
    pub open spec fn wf(self) -> bool {
        0 < self.den
    }

    /// Small enough that products of two such numbers fit comfortably in `i128`.
    pub open spec fn bounded(self) -> bool {
        &&& -DEC_BOUND <= self.num <= DEC_BOUND
        &&& 0 < self.den <= DEC_BOUND
    }

    /// The value lies in the closed interval `[lo, hi]` (integer endpoints).
    pub open spec fn in_range(self, lo: int, hi: int) -> bool {
        lo * self.den <= self.num && self.num <= hi * self.den
    }

    pub fn zero() -> (r: Rational)
        ensures
            r == (Rational { num: 0, den: 1 }),
    {
        Rational { num: 0, den: 1 }
    }

    pub fn from_int(n: i64) -> (r: Rational)
        ensures
            r == (Rational { num: n as i128, den: 1 }),
    {
        Rational { num: n as i128, den: 1 }
    }
}

pub open spec fn pow10(n: nat) -> int
    decreases n,
{
    if n == 0 {
        1
    } else {
        10 * pow10((n - 1) as nat)
    }
}

pub proof fn lemma_pow10_pos(n: nat)
    ensures
        pow10(n) >= 1,
    decreases n,
{
    if n > 0 {
        lemma_pow10_pos((n - 1) as nat);
    }
}

pub proof fn lemma_pow10_le(a: nat, b: nat)
    requires
        a <= b,
    ensures
        pow10(a) <= pow10(b),
    decreases b,
{
    if a < b {
        lemma_pow10_le(a, (b - 1) as nat);
        lemma_pow10_pos((b - 1) as nat);
    }
}

pub proof fn lemma_pow10_18()
    ensures
        pow10(18) == DEC_BOUND,
{
    reveal_with_fuel(pow10, 20);
}

/// `c` is a decimal digit.
pub open spec fn is_digit(c: char) -> bool {
    48 <= c as u32 <= 57
}

/// Numeric value of a digit character.
pub open spec fn digit_val(c: char) -> int {
    c as u32 - 48
}

pub open spec fn all_digits(s: Seq<char>) -> bool {
    forall|i: int| 0 <= i < s.len() ==> is_digit(#[trigger] s[i])
}

/// The integer spelled by a digit string, most significant first.
pub open spec fn digits_val(s: Seq<char>) -> int
    decreases s.len(),
{
    if s.len() == 0 {
        0
    } else {
        digits_val(s.drop_last()) * 10 + digit_val(s.last())
    }
}

pub proof fn lemma_digits_val_bound(s: Seq<char>)
    requires
        all_digits(s),
    ensures
        0 <= digits_val(s) < pow10(s.len()),
    decreases s.len(),
{
    if s.len() > 0 {
        assert(all_digits(s.drop_last()));
        lemma_digits_val_bound(s.drop_last());
        assert(is_digit(s.last()));
    }
}

fn pow10_exec(n: usize) -> (r: i128)
    requires
        n <= 18,
    ensures
        r == pow10(n as nat),
        1 <= r <= DEC_BOUND,
{
    let mut acc: i128 = 1;
    let mut i: usize = 0;
    proof {
        lemma_pow10_18();
    }
    while i < n
        invariant
            i <= n <= 18,
            acc == pow10(i as nat),
            pow10(18) == DEC_BOUND,
        decreases n - i,
    {
        proof {
            lemma_pow10_le(i as nat, 17);
            lemma_pow10_le(17, 18);
            lemma_pow10_pos(i as nat);
        }
        acc = acc * 10;
        i += 1;
    }
    proof {
        lemma_pow10_le(n as nat, 18);
        lemma_pow10_pos(n as nat);
    }
    acc
}

pub(crate) fn digit_of(c: char) -> (r: Option<u8>)
    ensures
        match r {
            Some(d) => is_digit(c) && d as int == digit_val(c),
            None => !is_digit(c),
        },
{
    let u = c as u32;
    if 48 <= u && u <= 57 {
        Some((u - 48) as u8)
    } else {
        None
    }
}

/// `j` is the position of the first `.` in `s`.
pub open spec fn first_dot_at(s: Seq<char>, j: int) -> bool {
    0 <= j < s.len() && s[j] == '.' && (forall|t: int| 0 <= t < j ==> s[t] != '.')
}

/// The literal starts with a minus sign.
pub open spec fn dec_neg(s: Seq<char>) -> bool {
    s.len() > 0 && s[0] == '-'
}

/// The literal without its sign.
pub open spec fn dec_body(s: Seq<char>) -> Seq<char> {
    if dec_neg(s) {
        s.skip(1)
    } else {
        s
    }
}

pub open spec fn dec_has_dot(s: Seq<char>) -> bool {
    exists|j: int| first_dot_at(dec_body(s), j)
}

pub open spec fn dec_dot(s: Seq<char>) -> int {
    choose|j: int| first_dot_at(dec_body(s), j)
}

/// The integer digits of the literal.
pub open spec fn dec_int(s: Seq<char>) -> Seq<char> {
    if dec_has_dot(s) {
        dec_body(s).take(dec_dot(s))
    } else {
        dec_body(s)
    }
}

/// The fractional digits of the literal.
pub open spec fn dec_frac(s: Seq<char>) -> Seq<char> {
    if dec_has_dot(s) {
        dec_body(s).skip(dec_dot(s) + 1)
    } else {
        Seq::<char>::empty()
    }
}

/// `s` is a plain decimal literal: an optional minus sign, an integer digit
/// string, and an optional fractional digit string, with at most eighteen
/// digits in all.
pub open spec fn dec_ok(s: Seq<char>) -> bool {
    &&& dec_int(s).len() >= 1
    &&& all_digits(dec_int(s))
    &&& all_digits(dec_frac(s))
    &&& (dec_has_dot(s) ==> dec_frac(s).len() >= 1)
    &&& dec_int(s).len() + dec_frac(s).len() <= 18
}

/// The number a plain decimal literal denotes; anything else denotes nothing.
pub open spec fn spec_parse_decimal(s: Seq<char>) -> Option<Rational> {
    if dec_ok(s) {
        Some(
            Rational {
                num: (if dec_neg(s) {
                    -digits_val(dec_int(s) + dec_frac(s))
                } else {
                    digits_val(dec_int(s) + dec_frac(s))
                }) as i128,
                den: pow10(dec_frac(s).len()) as i128,
            },
        )
    } else {
        None
    }
}

/// Parse a plain decimal literal exactly, as `spec_parse_decimal` describes.
#[verifier::rlimit(60)]
pub fn parse_decimal(s: &str) -> (r: Option<Rational>)
    ensures
        r == spec_parse_decimal(s@),
        r matches Some(q) ==> q.wf() && q.bounded(),
{
    let n = s.unicode_len();
    let start: usize = if n > 0 && s.get_char(0) == '-' {
        1
    } else {
        0
    };
    let ghost neg = dec_neg(s@);
    let ghost body = dec_body(s@);
    assert(body =~= s@.subrange(start as int, n as int));
    let dot = find_char_from(s, '.', start);
    let ghost has_dot = dec_has_dot(s@);
    let ghost dotg = dec_dot(s@);
    // End of the integer digits, and start/end of the fractional digits.
    let int_end: usize = match dot {
        Some(i) => i,
        None => n,
    };
    proof {
        match dot {
            Some(i) => {
                assert(first_dot_at(body, i - start)) by {
                    assert(body[i - start] == s@[i as int]);
                    assert(forall|t: int|
                        0 <= t < i - start ==> body[t] == s@[t + start] && body[t] != '.');
                }
                if dotg != i - start {
                    assert(body[dotg] == '.');
                    assert(body[i - start] == '.');
                }
                assert(has_dot && dotg == i - start);
            },
            None => {
                if has_dot {
                    assert(body[dotg] == s@[dotg + start]);
                }
                assert(!has_dot);
            },
        }
    }
    let ghost int_d = dec_int(s@);
    let ghost frac_d = dec_frac(s@);
    assert(int_d =~= s@.subrange(start as int, int_end as int));
    let frac_start: usize = if int_end < n {
        int_end + 1
    } else {
        n
    };
    assert(frac_d =~= s@.subrange(frac_start as int, n as int));
    if int_end == start {
        // no integer digits
        assert(!dec_ok(s@));
        return None;
    }
    if int_end < n && frac_start == n {
        // a dot with nothing after it
        assert(has_dot && frac_d.len() == 0);
        assert(!dec_ok(s@));
        return None;
    }
    let int_len = int_end - start;
    let frac_len = n - frac_start;
    if int_len + frac_len > 18 {
        assert(!dec_ok(s@));
        return None;
    }
    proof {
        lemma_pow10_18();
    }
    // Accumulate the integer digits, then the fractional digits.
    let ghost intr = s@.subrange(start as int, int_end as int);
    let ghost fracr = s@.subrange(frac_start as int, n as int);
    let mut acc: i128 = 0;
    let mut bad = false;
    let mut t: usize = start;
    while t < int_end
        invariant
            start <= t <= int_end <= n,
            n == s@.len(),
            intr == s@.subrange(start as int, int_end as int),
            !bad ==> all_digits(s@.subrange(start as int, t as int)),
            !bad ==> acc == digits_val(s@.subrange(start as int, t as int)),
            bad ==> !all_digits(intr) && t == int_end,
            int_end - start + (n - frac_start) <= 18,
            int_end <= frac_start <= n,
            pow10(18) == DEC_BOUND,
        decreases int_end - t,
    {
        let ghost pre = s@.subrange(start as int, t as int);
        let ghost post = s@.subrange(start as int, t + 1);
        match digit_of(s.get_char(t)) {
            Some(d) => {
                proof {
                    lemma_digits_val_bound(pre);
                    lemma_pow10_le(pre.len() as nat, 17);
                    assert(post.drop_last() =~= pre);
                    assert(post.last() == s@[t as int]);
                }
                acc = acc * 10 + (d as i128);
                t += 1;
            },
            None => {
                proof {
                    assert(intr[t - start] == s@[t as int]);
                }
                bad = true;
                t = int_end;
            },
        }
    }
    if bad {
        assert(int_d =~= intr);
        assert(!dec_ok(s@));
        return None;
    }
    assert(int_d =~= intr);
    assert(acc == digits_val(int_d));
    assert(all_digits(int_d));
    let ghost int_len_g = int_d.len();
    let mut t2: usize = frac_start;
    while t2 < n
        invariant
            frac_start <= t2 <= n,
            n == s@.len(),
            intr == s@.subrange(start as int, int_end as int),
            fracr == s@.subrange(frac_start as int, n as int),
            all_digits(intr),
            !bad ==> all_digits(s@.subrange(frac_start as int, t2 as int)),
            !bad ==> acc == digits_val(intr + s@.subrange(frac_start as int, t2 as int)),
            bad ==> !all_digits(fracr) && t2 == n,
            intr.len() + (n - frac_start) <= 18,
            start <= int_end <= frac_start <= n,
            intr.len() == int_end - start,
            pow10(18) == DEC_BOUND,
        decreases n - t2,
    {
        let ghost pre = intr + s@.subrange(frac_start as int, t2 as int);
        let ghost post = intr + s@.subrange(frac_start as int, t2 + 1);
        match digit_of(s.get_char(t2)) {
            Some(d) => {
                proof {
                    assert(all_digits(pre));
                    lemma_digits_val_bound(pre);
                    lemma_pow10_le(pre.len() as nat, 17);
                    assert(post.drop_last() =~= pre);
                    assert(post.last() == s@[t2 as int]);
                }
                acc = acc * 10 + (d as i128);
                t2 += 1;
            },
            None => {
                proof {
                    assert(fracr[t2 - frac_start] == s@[t2 as int]);
                }
                bad = true;
                t2 = n;
            },
        }
    }
    if bad {
        assert(frac_d =~= fracr);
        assert(!dec_ok(s@));
        return None;
    }
    assert(frac_d =~= fracr);
    assert(intr + s@.subrange(frac_start as int, n as int) =~= int_d + frac_d);
    assert(acc == digits_val(int_d + frac_d));
    assert(all_digits(frac_d));
    proof {
        assert(all_digits(int_d + frac_d));
        lemma_digits_val_bound(int_d + frac_d);
        lemma_pow10_le((int_d + frac_d).len() as nat, 18);
        lemma_pow10_le(frac_d.len() as nat, 17);
        lemma_pow10_pos(frac_d.len() as nat);
    }
    let den = pow10_exec(frac_len);
    let num: i128 = if start == 1 {
        -acc
    } else {
        acc
    };
    proof {
        assert(dec_ok(s@));
        assert(num == (if neg {
            -digits_val(int_d + frac_d)
        } else {
            digits_val(int_d + frac_d)
        }) as i128);
        assert(den == pow10(frac_d.len()) as i128);
    }
    Some(Rational { num, den })
}

/// A parsed decimal literal is well-formed and small enough for the rating
/// arithmetic.
pub proof fn lemma_parse_decimal_wf(s: Seq<char>)
    ensures
        spec_parse_decimal(s) matches Some(q) ==> q.wf() && q.bounded(),
{
    if spec_parse_decimal(s) is Some {
        assert(dec_ok(s));
        let digits = dec_int(s) + dec_frac(s);
        assert(all_digits(digits)) by {
            assert(forall|i: int|
                0 <= i < digits.len() ==> #[trigger] digits[i] == (if i < dec_int(s).len() {
                    dec_int(s)[i]
                } else {
                    dec_frac(s)[i - dec_int(s).len()]
                }));
        }
        lemma_digits_val_bound(digits);
        lemma_pow10_le(digits.len() as nat, 18);
        lemma_pow10_18();
        lemma_pow10_pos(dec_frac(s).len());
        lemma_pow10_le(dec_frac(s).len(), 18);
    }
}

/// Numerator of `5 * raw / divisor`, with the sign normalised onto it.
pub open spec fn scaled_num(raw: Rational, divisor: Rational) -> int {
    if raw.den * divisor.num < 0 {
        -(5 * raw.num * divisor.den)
    } else {
        5 * raw.num * divisor.den
    }
}

/// Denominator of `5 * raw / divisor`, made positive.
pub open spec fn scaled_den(raw: Rational, divisor: Rational) -> int {
    if raw.den * divisor.num < 0 {
        -(raw.den * divisor.num)
    } else {
        raw.den * divisor.num
    }
}

/// A rating taken from another site on scale `divisor`: `5 * raw / divisor`,
/// clamped into `[1, 5]`.
pub fn scaled_rating(raw: Rational, divisor: Rational) -> (r: Rational)
    requires
        raw.wf(),
        raw.bounded(),
        divisor.wf(),
        divisor.bounded(),
        divisor.num != 0,
    ensures
        r.wf(),
        r.in_range(1, 5),
        scaled_num(raw, divisor) < scaled_den(raw, divisor) ==> r == (Rational { num: 1, den: 1 }),
        scaled_num(raw, divisor) > 5 * scaled_den(raw, divisor) ==> r == (Rational {
            num: 5,
            den: 1,
        }),
        (scaled_den(raw, divisor) <= scaled_num(raw, divisor) <= 5 * scaled_den(raw, divisor))
            ==> r.num == scaled_num(raw, divisor) && r.den == scaled_den(raw, divisor),
{
    proof {
        assert(-DEC_BOUND * DEC_BOUND <= raw.den * divisor.num <= DEC_BOUND * DEC_BOUND
            && raw.den * divisor.num != 0) by (nonlinear_arith)
            requires
                0 < raw.den <= DEC_BOUND,
                -DEC_BOUND <= divisor.num <= DEC_BOUND,
                divisor.num != 0,
        ;
        assert(-5 * DEC_BOUND * DEC_BOUND <= 5 * raw.num * divisor.den <= 5 * DEC_BOUND
            * DEC_BOUND) by (nonlinear_arith)
            requires
                -DEC_BOUND <= raw.num <= DEC_BOUND,
                0 < divisor.den <= DEC_BOUND,
        ;
    }
    let num0: i128 = 5 * raw.num * divisor.den;
    let den0: i128 = raw.den * divisor.num;
    let num1: i128 = if den0 < 0 {
        -num0
    } else {
        num0
    };
    let den1: i128 = if den0 < 0 {
        -den0
    } else {
        den0
    };
    if num1 < den1 {
        Rational { num: 1, den: 1 }
    } else if num1 > 5 * den1 {
        Rational { num: 5, den: 1 }
    } else {
        Rational { num: num1, den: den1 }
    }
}

/// The clamped scaled rating is a well-formed number within one and five,
/// whatever the raw value and (non-zero) scale were.
pub proof fn lemma_scaled_in_range(raw: Rational, divisor: Rational)
    requires
        raw.wf(),
        raw.bounded(),
        divisor.wf(),
        divisor.bounded(),
        divisor.num != 0,
    ensures
        ({
            let r = (if scaled_num(raw, divisor) < scaled_den(raw, divisor) {
                Rational { num: 1, den: 1 }
            } else if scaled_num(raw, divisor) > 5 * scaled_den(raw, divisor) {
                Rational { num: 5, den: 1 }
            } else {
                Rational {
                    num: scaled_num(raw, divisor) as i128,
                    den: scaled_den(raw, divisor) as i128,
                }
            });
            r.wf() && r.in_range(1, 5)
        }),
{
    assert(-DEC_BOUND * DEC_BOUND <= raw.den * divisor.num <= DEC_BOUND * DEC_BOUND && raw.den
        * divisor.num != 0) by (nonlinear_arith)
        requires
            0 < raw.den <= DEC_BOUND,
            -DEC_BOUND <= divisor.num <= DEC_BOUND,
            divisor.num != 0,
    ;
    assert(-5 * DEC_BOUND * DEC_BOUND <= 5 * raw.num * divisor.den <= 5 * DEC_BOUND * DEC_BOUND)
        by (nonlinear_arith)
        requires
            -DEC_BOUND <= raw.num <= DEC_BOUND,
            0 < divisor.den <= DEC_BOUND,
    ;
}

/// Seconds from a microsecond count: the same number over a million times
/// the denominator.
pub fn seconds_from_micros(micros: Rational) -> (r: Rational)
    requires
        micros.wf(),
        micros.bounded(),
    ensures
        r.wf(),
        r.num == micros.num,
        r.den == micros.den * 1_000_000,
{
    Rational { num: micros.num, den: micros.den * 1_000_000 }
}

} // verus!
