//! What reading and writing floating-point numbers comes to: the nearest number,
//! and the shortest text for it.

use vstd::prelude::*;

use crate::float::{
    first_of, lemma_first_of, lower, names_no_number, read_decimal, spells, tens, FloatKind,
    Reading,
};
use crate::float_text::{decimal_text, lemma_dec_padded, lemma_decimal_reads};
use crate::natural::{lemma_power_positive, power};
use crate::numerals::{
    blank, digit_row, lemma_numeral, lemma_padded_numeral, lemma_spelled, lemma_trim_end_parts,
    lemma_trim_start_parts, lemma_trimmed, spelled,
};
use crate::text::{all_digits, dec, dec_padded, is_digit, is_space, read_int, trim, trim_start, zeros};

verus! {

/// The weight of the sign bit, the step of the exponent field, and the power of
/// two that a unit is below one.
pub open spec fn layout(kind: FloatKind) -> (nat, nat, nat) {
    match kind {
        FloatKind::Single => (0x8000_0000, 0x80_0000, 150),
        FloatKind::Double => (0x8000_0000_0000_0000, 0x10_0000_0000_0000, 1075),
    }
}

/// The number that an IEEE-754 pattern without sign denotes, in units: the upper
/// bits are the exponent, the lower ones the fraction, and a leading one stands
/// before the fraction unless the exponent is zero.
pub open spec fn units(kind: FloatKind, b: nat) -> nat {
    let one = layout(kind).1;
    if b / one == 0 {
        2 * (b % one)
    } else {
        (one + b % one) * power(2, b / one)
    }
}

/// True for the patterns without sign of finite numbers: those whose exponent is
/// not all ones.
pub open spec fn is_finite(kind: FloatKind, b: nat) -> bool {
    let (sign, one, unit) = layout(kind);
    b < sign && b / one < sign / one - 1
}

/// How far two numbers are apart.
pub open spec fn apart(x: nat, y: nat) -> nat {
    if x < y {
        (y - x) as nat
    } else {
        (x - y) as nat
    }
}

/// Ten to the power `e`, or one where `e` is negative.
pub open spec fn ten_to(e: int) -> nat {
    power(10, (if e > 0 {
        e
    } else {
        0
    }) as nat)
}

/// The distance of pattern `b` from the decimal `m * 10^e`, times the power of
/// ten that makes both whole.
pub open spec fn gap(kind: FloatKind, b: nat, m: nat, e: int) -> nat {
    apart(m * power(2, layout(kind).2) * ten_to(e), units(kind, b) * ten_to(-e))
}

pub(crate) proof fn lemma_units(kind: FloatKind, b: nat)
    ensures
        units(kind, b) == kind.magnitude(b),
        b < kind.sign_bit() ==> (is_finite(kind, b) <==> b < kind.infinity()),
        is_finite(kind, b) ==> b < kind.infinity(),
{
    let one = kind.hidden();
    let e = b / one;
    if e == 0 {
        assert(power(2, 0) == 1);
        assert((2 * b) * 1 == 2 * b);
    } else {
        let p = power(2, (e - 1) as nat);
        assert(power(2, e) == p * 2);
        let f = one + b % one;
        assert((2 * f) * p == f * (p * 2)) by (nonlinear_arith);
    }
}

proof fn lemma_midpoint(kind: FloatKind, b: nat)
    ensures
        2 * kind.midpoint(b) == kind.magnitude(b) + kind.magnitude(b + 1),
        kind.magnitude(b) < kind.magnitude(b + 1),
{
    kind.lemma_next(b);
    let (m, n) = (kind.mantissa(b), kind.mantissa(b + 1));
    let p = power(2, kind.shift(b));
    lemma_power_positive(2, kind.shift(b));
    if kind.shift(b + 1) == kind.shift(b) {
        assert(2 * ((2 * m + 1) * p) == (2 * m) * p + (2 * n) * p && (2 * m) * p < (2 * n) * p)
            by (nonlinear_arith)
            requires
                n == m + 1,
                p > 0,
        ;
    } else {
        assert(power(2, kind.shift(b + 1)) == p * 2);
        assert(2 * ((2 * m + 1) * p) == (2 * m) * p + (2 * n) * (p * 2) && (2 * m) * p < (2 * n)
            * (p * 2)) by (nonlinear_arith)
            requires
                m + 1 == 2 * n,
                p > 0,
        ;
    }
}

proof fn lemma_magnitudes_grow(kind: FloatKind, a: nat, b: nat)
    requires
        a <= b,
    ensures
        kind.magnitude(a) <= kind.magnitude(b),
        a < b ==> kind.magnitude(a) < kind.magnitude(b),
    decreases b - a,
{
    if a < b {
        lemma_magnitudes_grow(kind, a, (b - 1) as nat);
        lemma_midpoint(kind, (b - 1) as nat);
    }
}

/// Patterns are ordered as the numbers that they denote.
pub proof fn lemma_units_grow(kind: FloatKind, a: nat, b: nat)
    requires
        a < b,
    ensures
        units(kind, a) < units(kind, b),
{
    lemma_units(kind, a);
    lemma_units(kind, b);
    lemma_magnitudes_grow(kind, a, b);
}

/// What a decimal is rounded to is nearest to it, and even where another number
/// is as near.
proof fn lemma_closest(kind: FloatKind, b: nat, m: nat, e: int, c: nat)
    requires
        kind.rounds_to(b, m, e),
        b < kind.infinity(),
        c < kind.infinity(),
        c != b,
    ensures
        gap(kind, b, m, e) <= gap(kind, c, m, e),
        gap(kind, b, m, e) == gap(kind, c, m, e) ==> b % 2 == 0,
{
    lemma_units(kind, b);
    lemma_units(kind, c);
    let n = kind.numerator(m, e);
    let d = tens(-e);
    lemma_power_positive(10, (if -e > 0 {
        -e
    } else {
        0
    }) as nat);
    let (vb, vc) = (kind.magnitude(b), kind.magnitude(c));
    if c > b {
        lemma_midpoint(kind, b);
        lemma_magnitudes_grow(kind, b + 1, c);
        let (mid, next) = (kind.midpoint(b), kind.magnitude(b + 1));
        assert(2 * (mid * d) <= vb * d + vc * d && vb * d < vc * d) by (nonlinear_arith)
            requires
                2 * mid == vb + next,
                next <= vc,
                vb < next,
                d > 0,
        ;
    } else {
        let a = (b - 1) as nat;
        lemma_midpoint(kind, a);
        lemma_magnitudes_grow(kind, c, a);
        let (mid, prev) = (kind.midpoint(a), kind.magnitude(a));
        assert(2 * (mid * d) >= vb * d + vc * d && vc * d < vb * d) by (nonlinear_arith)
            requires
                2 * mid == prev + vb,
                vc <= prev,
                prev < vb,
                d > 0,
        ;
    }
}

proof fn lemma_nearest_from(kind: FloatKind, m: nat, e: int, k: nat)
    requires
        k <= kind.infinity(),
        k > 0 ==> !kind.rounds_down_to((k - 1) as nat, m, e),
    ensures
        kind.rounds_to(kind.nearest(m, e), m, e),
    decreases kind.infinity() - k,
{
    if k == kind.infinity() || kind.rounds_down_to(k, m, e) {
        assert(kind.rounds_to(k, m, e));
    } else {
        lemma_nearest_from(kind, m, e, k + 1);
    }
}

/// The number that the largest finite one and the next power of two have halfway
/// between them, in units.
pub open spec fn overflow(kind: FloatKind) -> nat {
    let (sign, one, unit) = layout(kind);
    ((4 * one - 1) as nat) * power(2, (sign / one - 3) as nat)
}

proof fn lemma_overflow(kind: FloatKind)
    ensures
        kind.midpoint((kind.infinity() - 1) as nat) == overflow(kind),
{
    let b = (kind.infinity() - 1) as nat;
    let one = kind.hidden();
    assert(b / one == kind.top_exponent() - 1);
    assert(b % one == one - 1);
    assert(2 * kind.mantissa(b) + 1 == 4 * one - 1);
}

// ---------------------------------------------------------------------------
// Reading
// ---------------------------------------------------------------------------

/// The exponent that a text after the digits says: none, or `e` or `E` and an
/// integer.
pub open spec fn exponent_part(x: Seq<char>, sign: Seq<char>, digits: Seq<char>) -> bool {
    &&& sign == Seq::<char>::empty() || sign == seq!['+'] || sign == seq!['-']
    &&& digit_row(digits)
    &&& digits.len() > 0
    &&& x == seq!['e'] + sign + digits || x == seq!['E'] + sign + digits
}

proof fn lemma_exponent(x: Seq<char>, sign: Seq<char>, digits: Seq<char>)
    requires
        exponent_part(x, sign, digits),
    ensures
        read_int(x.skip(1), true) == Some(
            if sign == seq!['-'] {
                -spelled(digits)
            } else {
                spelled(digits)
            },
        ),
{
    let t = sign + digits;
    assert(x.skip(1) =~= t);
    lemma_spelled(digits);
    assert('0' <= digits[0] <= '9');
    if sign.len() == 0 {
        assert(t =~= digits);
    } else {
        assert(sign.len() == 1 && t[0] == sign[0]);
        assert(t.drop_first() =~= digits);
    }
    assert(sign == seq!['-'] <==> t[0] == '-');
}

/// A decimal number is digits, a point with digits after it or none, and an
/// exponent or none, with at least one digit before or after the point. It reads
/// as the digits without the point, times ten to the exponent less the number of
/// digits after the point.
pub proof fn lemma_decimal_spelled(
    whole: Seq<char>,
    point: Seq<char>,
    fraction: Seq<char>,
    x: Seq<char>,
    sign: Seq<char>,
    digits: Seq<char>,
)
    requires
        digit_row(whole),
        digit_row(fraction),
        whole.len() + fraction.len() > 0,
        point == seq!['.'] || (point.len() == 0 && fraction.len() == 0),
        x.len() == 0 || exponent_part(x, sign, digits),
    ensures
        read_decimal(whole + point + fraction + x) == Some(
            (
                spelled(whole + fraction) as nat,
                (if x.len() == 0 {
                    0
                } else if sign == seq!['-'] {
                    -spelled(digits)
                } else {
                    spelled(digits)
                }) - fraction.len(),
            ),
        ),
        spelled(whole + fraction) >= 0,
{
    let number = whole + point + fraction;
    let s = number + x;
    let n = number.len();
    let both = whole + fraction;
    assert forall|i: int| 0 <= i < both.len() implies '0' <= #[trigger] both[i] <= '9' by {
        if i < whole.len() {
            assert(both[i] == whole[i]);
        } else {
            assert(both[i] == fraction[i - whole.len()]);
        }
    }
    lemma_spelled(both);
    assert forall|i: int| 0 <= i < n implies s[i] != 'e' && s[i] != 'E' by {
        if i < whole.len() {
            assert(s[i] == whole[i]);
        } else if i >= whole.len() + point.len() {
            assert(s[i] == fraction[i - whole.len() - point.len()]);
        }
    }
    if x.len() > 0 {
        lemma_exponent(x, sign, digits);
        assert(s[n as int] == x[0]);
        assert(s.skip(n as int + 1) =~= x.skip(1));
    }
    lemma_first_of(s, 'e', 'E', n);
    assert(s.take(n as int) =~= number);
    let k = whole.len();
    assert forall|i: int| 0 <= i < k implies number[i] != '.' by {
        assert(number[i] == whole[i]);
    }
    if point.len() > 0 {
        assert(number[k as int] == '.');
        assert(number.skip(k as int + 1) =~= fraction);
    } else {
        assert(number =~= whole);
    }
    lemma_first_of(number, '.', '.', k);
    assert(number.take(k as int) =~= whole);
    assert(whole + Seq::<char>::empty() =~= whole);
    assert(point.len() == 0 ==> fraction =~= Seq::<char>::empty());
}

/// A decimal number `m * 10^e` in a text, with a sign or none and white space or
/// none around it, is read as the finite number nearest to it: no other is
/// nearer, and where another is as near the pattern is even. From halfway above
/// the largest on it is not finite.
pub proof fn lemma_decimal_read(
    kind: FloatKind,
    before: Seq<char>,
    minus: Seq<char>,
    body: Seq<char>,
    after: Seq<char>,
    m: nat,
    e: int,
    c: nat,
)
    requires
        blank(before),
        blank(after),
        minus == Seq::<char>::empty() || minus == seq!['+'] || minus == seq!['-'],
        body.len() > 0,
        is_digit(body[0]) || body[0] == '.',
        !is_space(body.last()),
        read_decimal(body) == Some((m, e)),
    ensures
        ({
            let sign = layout(kind).0;
            let text = before + minus + body + after;
            let n = m * power(2, layout(kind).2) * ten_to(e);
            match kind.reading(text) {
                Reading::Invalid => false,
                Reading::NotFinite => n >= overflow(kind) * ten_to(-e),
                Reading::Bits(bits) => {
                    let b = bits as nat % sign;
                    &&& n < overflow(kind) * ten_to(-e)
                    &&& bits < 2 * sign
                    &&& bits >= sign <==> minus == seq!['-']
                    &&& is_finite(kind, b)
                    &&& is_finite(kind, c) && c != b ==> gap(kind, b, m, e) <= gap(kind, c, m, e)
                    &&& is_finite(kind, c) && c != b && gap(kind, b, m, e) == gap(kind, c, m, e)
                        ==> b % 2 == 0
                },
            }
        }),
{
    let s = minus + body;
    assert(s.last() == body.last());
    if minus.len() == 0 {
        assert(s =~= body);
    } else {
        assert(minus.len() == 1 && s[0] == minus[0]);
        assert(s.drop_first() =~= body);
    }
    assert(minus == seq!['-'] <==> s[0] == '-');
    lemma_trimmed(before, s, after);
    assert(before + minus + body + after =~= before + s + after);
    assert(lower(body[0]) == body[0]);
    assert(!names_no_number(body)) by {
        if spells(body, seq!['i', 'n', 'f']) || spells(
            body,
            seq!['i', 'n', 'f', 'i', 'n', 'i', 't', 'y'],
        ) || spells(body, seq!['n', 'a', 'n']) {
            assert(lower(body[0]) == 'i' || lower(body[0]) == 'n');
        }
    }
    lemma_nearest_from(kind, m, e, 0);
    lemma_overflow(kind);
    let b = kind.nearest(m, e);
    let top = (kind.infinity() - 1) as nat;
    assert(top % 2 == 1);
    if b < kind.infinity() {
        lemma_units(kind, b);
        kind.lemma_down_grows(b, top, m, e);
        let sign = kind.sign_bit();
        assert((sign + b) % sign == b && b % sign == b) by (nonlinear_arith)
            requires
                b < sign,
                sign > 0,
        ;
        if is_finite(kind, c) && c != b {
            lemma_units(kind, c);
            lemma_closest(kind, b, m, e, c);
        }
    }
}

/// The names of what is not finite, in any mix of cases and with a sign or none.
pub proof fn lemma_names_read(kind: FloatKind, minus: Seq<char>, name: Seq<char>)
    requires
        minus == Seq::<char>::empty() || minus == seq!['+'] || minus == seq!['-'],
        ({
            let small = name.map_values(
                |c: char|
                    if 'A' <= c <= 'Z' {
                        (c as int + 32) as char
                    } else {
                        c
                    },
            );
            ||| small == seq!['n', 'a', 'n']
            ||| small == seq!['i', 'n', 'f']
            ||| small == seq!['i', 'n', 'f', 'i', 'n', 'i', 't', 'y']
        }),
    ensures
        kind.reading(minus + name) == Reading::NotFinite,
{
    let small = name.map_values(
        |c: char|
            if 'A' <= c <= 'Z' {
                (c as int + 32) as char
            } else {
                c
            },
    );
    assert(name.len() == small.len());
    assert(forall|i: int| 0 <= i < name.len() ==> lower(#[trigger] name[i]) == small[i]);
    assert(spells(name, small));
    let s = minus + name;
    assert(s.last() == name.last());
    assert(lower(name[0]) == small[0] && lower(name[name.len() - 1]) == small[small.len() - 1]);
    lemma_letter(name[0]);
    lemma_letter(name.last());
    if minus.len() == 0 {
        assert(s =~= name);
    } else {
        assert(minus.len() == 1 && s[0] == minus[0]);
        assert(s.drop_first() =~= name);
    }
    assert(trim(s) == s);
}

proof fn lemma_letter(c: char)
    requires
        'a' <= lower(c) <= 'z',
    ensures
        !is_space(c),
        c != '+',
        c != '-',
{
}

// ---------------------------------------------------------------------------
// Writing
// ---------------------------------------------------------------------------

/// A decimal is written out in full: its digits with zeros behind them, or with
/// a point that has as many digits after it as the exponent asks for.
pub proof fn lemma_decimal_written(n: nat, q: int)
    ensures
        q >= 0 ==> decimal_text(n, q) == dec(n) + Seq::new(q as nat, |i: int| '0'),
        q < 0 ==> {
            let s = decimal_text(n, q);
            let k = s.len() + q - 1;
            &&& k > 0
            &&& s[k] == '.'
            &&& digit_row(s.take(k))
            &&& digit_row(s.skip(k + 1))
            &&& k > 1 ==> s[0] != '0'
            &&& spelled(s.take(k) + s.skip(k + 1)) == n
        },
{
    if q < 0 {
        let places = (-q) as nat;
        let p = power(10, places);
        lemma_power_positive(10, places);
        let (x, y) = (dec(n / p), dec_padded(n % p, places));
        let s = decimal_text(n, q);
        lemma_numeral(n / p);
        lemma_padded_numeral(n % p, places);
        lemma_decimal_reads(n, q);
        lemma_dec_padded(n % p, places);
        let k = s.len() + q - 1;
        assert(k == x.len());
        assert(s.take(k) =~= x);
        assert(s.skip(k + 1) =~= y);
        assert(s =~= x + seq!['.'] + y + Seq::<char>::empty());
        lemma_decimal_spelled(x, seq!['.'], y, seq![], seq![], seq![]);
        if k > 1 && s[0] == '0' {
            assert(x[0] == '0');
            assert(dec(0).len() == 1);
        }
    } else {
        assert(zeros(q as nat) =~= Seq::new(q as nat, |i: int| '0'));
    }
}

proof fn lemma_written_reads(kind: FloatKind, n: nat, q: int, b: nat)
    requires
        b < kind.infinity(),
    ensures
        kind.reading(decimal_text(n, q)) == Reading::Bits(b as u64) <==> kind.rounds_to(b, n, q),
{
    let s = decimal_text(n, q);
    lemma_decimal_reads(n, q);
    assert(!is_space(s[0]) && !is_space(s.last()));
    assert(trim(s) == s);
    assert(lower(s[0]) == s[0]);
    assert(!names_no_number(s)) by {
        if spells(s, seq!['i', 'n', 'f']) || spells(
            s,
            seq!['i', 'n', 'f', 'i', 'n', 'i', 't', 'y'],
        ) || spells(s, seq!['n', 'a', 'n']) {
            assert(lower(s[0]) == 'i' || lower(s[0]) == 'n');
        }
    }
    let (m, e) = read_decimal(s)->0;
    lemma_nearest_from(kind, m, e, 0);
    let c = kind.nearest(m, e);
    assert(kind.rounds_to(b, m, e) == kind.rounds_to(b, n, q)) by {
        if q >= 0 {
            let (u, t) = (power(2, kind.half_unit()), power(10, q as nat));
            assert(power(10, 0) == 1);
            assert((n * t) * u * 1 == n * u * t) by (nonlinear_arith);
        }
    }
    if kind.rounds_to(b, m, e) {
        kind.lemma_nearest_unique(b, m, e);
    }
}

/// The text of a finite number other than zero is a decimal, with a `-` before
/// it for a negative one, that reads back. No decimal whose last digit has a
/// higher place reads back, and of those whose last digit has the same place it
/// is the nearest to the number, the larger of two that are as near.
pub proof fn lemma_shortest_text(kind: FloatKind, bits: nat) -> (r: (nat, int))
    requires
        bits < 2 * layout(kind).0,
        0 < bits % layout(kind).0,
        is_finite(kind, bits % layout(kind).0),
    ensures
        ({
            let sign = layout(kind).0;
            let b = bits % sign;
            &&& kind.text(bits) == (if bits >= sign {
                seq!['-'] + decimal_text(r.0, r.1)
            } else {
                decimal_text(r.0, r.1)
            })
            &&& kind.reading(kind.text(bits)) == Reading::Bits(bits as u64)
            &&& kind.reading(decimal_text(r.0, r.1)) == Reading::Bits(b as u64)
            &&& forall|n: nat, q: int|
                kind.reading(#[trigger] decimal_text(n, q)) == Reading::Bits(b as u64) ==> {
                    ||| q < r.1
                    ||| q == r.1 && gap(kind, b, r.0, q) < gap(kind, b, n, q)
                    ||| q == r.1 && gap(kind, b, r.0, q) == gap(kind, b, n, q) && n <= r.0
                }
        }),
{
    let sign = kind.sign_bit();
    let b = bits % sign;
    lemma_units(kind, b);
    let (n, q) = kind.shortest(b);
    let e = kind.vast() as int;
    kind.lemma_vast(1, e);
    if kind.rounds_down_to(b, 1, e) {
        kind.lemma_down_grows(b, (kind.infinity() - 1) as nat, 1, e);
    }
    kind.lemma_none_from_start(b, e);
    kind.lemma_shortest_from(b, e - 1);
    kind.lemma_text_reads_back(bits);
    lemma_written_reads(kind, n, q, b);
    assert(kind.rounds_to(b, n, q));
    assert(seq![] + decimal_text(n, q) =~= decimal_text(n, q));
    assert forall|n2: nat, q2: int|
        kind.reading(#[trigger] decimal_text(n2, q2)) == Reading::Bits(b as u64) implies {
        ||| q2 < q
        ||| q2 == q && gap(kind, b, n, q2) < gap(kind, b, n2, q2)
        ||| q2 == q && gap(kind, b, n, q2) == gap(kind, b, n2, q2) && n2 <= n
    } by {
        lemma_written_reads(kind, n2, q2, b);
        assert(kind.rounds_to(b, n2, q2));
    }
    (n, q)
}

/// The texts of zero and of what is not finite.
pub proof fn lemma_named_text(kind: FloatKind, bits: nat)
    requires
        bits < 2 * layout(kind).0,
    ensures
        ({
            let (sign, one, unit) = layout(kind);
            let b = bits % sign;
            let minus = if bits >= sign {
                seq!['-']
            } else {
                seq![]
            };
            &&& b == 0 ==> kind.text(bits) == minus + seq!['0']
            &&& b / one == sign / one - 1 && b % one == 0 ==> kind.text(bits) == minus + seq![
                'i',
                'n',
                'f',
            ]
            &&& b / one == sign / one - 1 && b % one != 0 ==> kind.text(bits) == seq!['N', 'a', 'N']
        }),
{
}

proof fn lemma_first_of_is(s: Seq<char>, a: char, b: char)
    ensures
        first_of(s, a, b) <= s.len(),
        forall|i: int| 0 <= i < first_of(s, a, b) ==> #[trigger] s[i] != a && s[i] != b,
        first_of(s, a, b) < s.len() ==> s[first_of(s, a, b) as int] == a || s[first_of(
            s,
            a,
            b,
        ) as int] == b,
    decreases s.len(),
{
    if s.len() > 0 && s[0] != a && s[0] != b {
        let t = s.drop_first();
        lemma_first_of_is(t, a, b);
        assert forall|i: int| 0 <= i < first_of(s, a, b) implies #[trigger] s[i] != a && s[i]
            != b by {
            if i > 0 {
                assert(s[i] == t[i - 1]);
            }
        }
    }
}

/// What reads as a decimal number is one: digits, a point with digits after it
/// or none, and an exponent or none.
pub proof fn lemma_decimal_spells(s: Seq<char>) -> (parts: (
    Seq<char>,
    Seq<char>,
    Seq<char>,
    Seq<char>,
    Seq<char>,
    Seq<char>,
))
    requires
        read_decimal(s) is Some,
    ensures
        s == parts.0 + parts.1 + parts.2 + parts.3,
        digit_row(parts.0),
        digit_row(parts.2),
        parts.0.len() + parts.2.len() > 0,
        parts.1 == seq!['.'] || (parts.1.len() == 0 && parts.2.len() == 0),
        parts.3.len() == 0 || exponent_part(parts.3, parts.4, parts.5),
{
    let i = first_of(s, 'e', 'E') as int;
    lemma_first_of_is(s, 'e', 'E');
    let number = s.take(i);
    let x = s.skip(i);
    let j = first_of(number, '.', '.') as int;
    lemma_first_of_is(number, '.', '.');
    let whole = number.take(j);
    let (point, fraction) = if j == number.len() {
        (seq![], seq![])
    } else {
        (seq!['.'], number.skip(j + 1))
    };
    let digits = whole + fraction;
    assert(all_digits(digits));
    assert forall|k: int| 0 <= k < whole.len() implies '0' <= #[trigger] whole[k] <= '9' by {
        assert(is_digit(digits[k]));
    }
    assert forall|k: int| 0 <= k < fraction.len() implies '0' <= #[trigger] fraction[k] <= '9' by {
        assert(is_digit(digits[whole.len() + k]));
    }
    assert(number =~= whole + point + fraction);
    assert(s =~= whole + point + fraction + x);
    let t = s.skip(i + 1);
    let signed = t.len() > 0 && (t[0] == '+' || t[0] == '-');
    let sign = if signed {
        seq![t[0]]
    } else {
        seq![]
    };
    let power_digits = if signed {
        t.drop_first()
    } else {
        t
    };
    if x.len() > 0 {
        assert(read_int(t, true) is Some);
        assert(all_digits(power_digits));
        assert forall|k: int| 0 <= k < power_digits.len() implies '0' <= #[trigger] power_digits[k]
            <= '9' by {
            assert(is_digit(power_digits[k]));
        }
        assert(x =~= seq![s[i]] + sign + power_digits);
    }
    (whole, point, fraction, x, sign, power_digits)
}

/// What reads as a finite number is a decimal number with a sign or none and
/// white space or none around it; what is no number is nothing of the kind.
pub proof fn lemma_number_spells(kind: FloatKind, text: Seq<char>) -> (parts: (
    Seq<char>,
    Seq<char>,
    Seq<char>,
    Seq<char>,
))
    ensures
        text == parts.0 + parts.1 + parts.2 + parts.3,
        blank(parts.0),
        parts.1 == Seq::<char>::empty() || parts.1 == seq!['+'] || parts.1 == seq!['-'],
        blank(parts.3),
        kind.reading(text) is Bits ==> read_decimal(parts.2) is Some,
        kind.reading(text) is Invalid ==> read_decimal(parts.2) is None,
{
    let before = lemma_trim_start_parts(text);
    let after = lemma_trim_end_parts(trim_start(text));
    let s = trim(text);
    let signed = s.len() > 0 && (s[0] == '+' || s[0] == '-');
    let minus = if signed {
        seq![s[0]]
    } else {
        seq![]
    };
    let body = if signed {
        s.drop_first()
    } else {
        s
    };
    assert(text =~= before + minus + body + after);
    (before, minus, body, after)
}

} // verus!
