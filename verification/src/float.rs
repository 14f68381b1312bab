//! IEEE-754 binary numbers as bit patterns: reading them from decimal text and
//! writing them as the shortest decimal text that reads back.
//!
//! A bit pattern without its sign is a natural number, and the numbers that the
//! patterns denote grow with it. The smallest positive one is the unit; the
//! midpoint between two neighbours is a multiple of half a unit, so every
//! comparison below is one of natural numbers, counted in half units.

use vstd::arithmetic::mul::lemma_mul_strict_inequality;
use vstd::prelude::*;

use crate::text::{
    all_digits, digits_value, is_digit, read_int, trim, trimmed,
};
use crate::natural::{lemma_power_add, lemma_power_positive, power, Natural};

verus! {

/// The two binary formats.
#[derive(Clone, Copy, PartialEq, Eq, Debug, Structural)]
pub enum FloatKind {
    /// 32 bits: 8 of exponent, 23 of fraction.
    Single,
    /// 64 bits: 11 of exponent, 52 of fraction.
    Double,
}

/// Ten to the power `e`, or one where `e` is negative.
pub open spec fn tens(e: int) -> nat {
    power(10, (if e > 0 { e } else { 0 }) as nat)
}

/// The position of the first `a` or `b` in `s`, or the length of `s`.
pub open spec fn first_of(s: Seq<char>, a: char, b: char) -> nat
    decreases s.len(),
{
    if s.len() == 0 || s[0] == a || s[0] == b {
        0
    } else {
        1 + first_of(s.drop_first(), a, b)
    }
}

/// `c` in lower case, where it is an ASCII letter.
pub open spec fn lower(c: char) -> char {
    if 'A' <= c <= 'Z' {
        (c as int + 32) as char
    } else {
        c
    }
}

/// True when `s` spells `word` in any mix of upper and lower case.
pub open spec fn spells(s: Seq<char>, word: Seq<char>) -> bool {
    s.len() == word.len() && forall|i: int| 0 <= i < s.len() ==> lower(#[trigger] s[i]) == word[i]
}

/// True for the names of the infinite and of what is not a number.
pub open spec fn names_no_number(s: Seq<char>) -> bool {
    ||| spells(s, seq!['i', 'n', 'f'])
    ||| spells(s, seq!['i', 'n', 'f', 'i', 'n', 'i', 't', 'y'])
    ||| spells(s, seq!['n', 'a', 'n'])
}

/// A decimal number: digits with at most one point among, before or after them,
/// at least one digit in all, then optionally `e` or `E` and a decimal integer.
/// Gives `(m, e)` for the number `m * 10^e`.
pub open spec fn read_decimal(s: Seq<char>) -> Option<(nat, int)> {
    let i = first_of(s, 'e', 'E') as int;
    let exponent = if i == s.len() {
        Some(0int)
    } else {
        read_int(s.skip(i + 1), true)
    };
    let number = s.take(i);
    let j = first_of(number, '.', '.') as int;
    let fraction = if j == number.len() {
        seq![]
    } else {
        number.skip(j + 1)
    };
    let digits = number.take(j) + fraction;
    if digits.len() > 0 && all_digits(digits) && exponent is Some {
        Some((digits_value(digits), exponent->0 - fraction.len()))
    } else {
        None
    }
}

/// What a text says of a binary number.
#[derive(Clone, Copy, PartialEq, Eq, Debug, Structural)]
pub enum Reading {
    /// It is no number.
    Invalid,
    /// It names what is not finite, or a number too large to be finite.
    NotFinite,
    /// The bit pattern of the nearest number.
    Bits(u64),
}

pub(crate) proof fn lemma_first_of(s: Seq<char>, a: char, b: char, n: nat)
    requires
        n <= s.len(),
        forall|i: int| 0 <= i < n ==> s[i] != a && s[i] != b,
        n == s.len() || s[n as int] == a || s[n as int] == b,
    ensures
        first_of(s, a, b) == n,
    decreases n,
{
    if n > 0 {
        let t = s.drop_first();
        assert forall|i: int| 0 <= i < n - 1 implies t[i] != a && t[i] != b by {
            assert(t[i] == s[i + 1]);
        }
        lemma_first_of(t, a, b, (n - 1) as nat);
    }
}

/// The position of the first `a` or `b` in `chars[from..to]`, or `to`.
fn position(chars: &Vec<char>, from: usize, to: usize, a: char, b: char) -> (p: usize)
    requires
        from <= to <= chars@.len(),
    ensures
        from <= p <= to,
        p - from == first_of(chars@.subrange(from as int, to as int), a, b),
{
    let mut p: usize = from;
    while p < to && chars[p] != a && chars[p] != b
        invariant
            from <= p <= to <= chars@.len(),
            forall|i: int| from <= i < p ==> chars@[i] != a && chars@[i] != b,
        decreases to - p,
    {
        p = p + 1;
    }
    proof {
        let s = chars@.subrange(from as int, to as int);
        assert forall|i: int| 0 <= i < p - from implies s[i] != a && s[i] != b by {
            assert(s[i] == chars@[from + i]);
        }
        lemma_first_of(s, a, b, (p - from) as nat);
    }
    p
}

/// True when `chars[from..]` spells `word` in any mix of cases.
fn spells_word(chars: &Vec<char>, from: usize, word: &Vec<char>) -> (b: bool)
    requires
        from <= chars@.len(),
    ensures
        b == spells(chars@.skip(from as int), word@),
{
    let ghost s = chars@.skip(from as int);
    let n: usize = chars.len();
    if n - from != word.len() {
        return false;
    }
    let mut i: usize = 0;
    while i < word.len()
        invariant
            i <= word@.len(),
            from + word@.len() == n == chars@.len(),
            s == chars@.skip(from as int),
            forall|k: int| 0 <= k < i ==> lower(#[trigger] s[k]) == word@[k],
        decreases word@.len() - i,
    {
        let c = chars[from + i];
        let l = if 'A' <= c && c <= 'Z' {
            ((c as u32 + 32) as u8) as char
        } else {
            c
        };
        proof {
            assert(s[i as int] == c);
            assert(l == lower(c));
        }
        if l != word[i] {
            return false;
        }
        i = i + 1;
    }
    true
}

/// Exponents are read up to this; beyond it a decimal is out of every range.
pub open spec fn exponent_cap() -> int {
    1_000_000_000_000_000_000_000_000_000_000
}

/// `v`, moved into the range of the exponents that are told apart.
pub open spec fn capped(v: int) -> int {
    if v > exponent_cap() {
        exponent_cap()
    } else if v < -exponent_cap() {
        -exponent_cap()
    } else {
        v
    }
}

/// The integer that `chars[from..]` spells, capped.
fn exponent_at(chars: &Vec<char>, from: usize) -> (v: Option<i128>)
    requires
        from <= chars@.len(),
    ensures
        match v {
            Some(n) => read_int(chars@.skip(from as int), true) is Some && n == capped(
                read_int(chars@.skip(from as int), true)->0,
            ),
            None => read_int(chars@.skip(from as int), true) is None,
        },
{
    let ghost s = chars@.skip(from as int);
    let negative = from < chars.len() && chars[from] == '-';
    let start: usize = if negative || (from < chars.len() && chars[from] == '+') {
        from + 1
    } else {
        from
    };
    let ghost digits = chars@.skip(start as int);
    proof {
        assert(start == from + 1 ==> digits =~= s.drop_first());
        assert(start == from ==> digits =~= s);
        assert(digits.take(0) =~= Seq::<char>::empty());
    }
    if start == chars.len() {
        return None;
    }
    let cap: i128 = 1_000_000_000_000_000_000_000_000_000_000;
    let mut value: i128 = 0;
    let mut i: usize = start;
    #[verifier::loop_isolation(false)]
    while i < chars.len()
        invariant
            start <= i <= chars@.len(),
            digits == chars@.skip(start as int),
            cap == exponent_cap(),
            0 <= value <= cap,
            value == capped(digits_value(digits.take(i - start)) as int),
            forall|j: int| 0 <= j < i - start ==> is_digit(#[trigger] digits[j]),
        decreases chars@.len() - i,
    {
        let c = chars[i];
        if !('0' <= c && c <= '9') {
            proof {
                assert(!is_digit(digits[i - start]));
            }
            return None;
        }
        proof {
            assert(digits.take(i - start + 1).drop_last() =~= digits.take(i - start));
            assert(digits.take(i - start + 1).last() == c);
        }
        value = value * 10 + (c as u32 - 48) as i128;
        if value > cap {
            value = cap;
        }
        i = i + 1;
    }
    proof {
        assert(digits.take(digits.len() as int) =~= digits);
    }
    if negative {
        Some(-value)
    } else {
        Some(value)
    }
}

proof fn lemma_digits_bound(s: Seq<char>)
    requires
        all_digits(s),
    ensures
        digits_value(s) < power(10, s.len()),
    decreases s.len(),
{
    if s.len() > 0 {
        assert(is_digit(s.last()));
        assert forall|i: int| 0 <= i < s.len() - 1 implies is_digit(#[trigger] s.drop_last()[i]) by {
            assert(s.drop_last()[i] == s[i]);
        }
        lemma_digits_bound(s.drop_last());
    }
}

/// Append the digits `chars[from..to]` to a number; `None` when one of them is
/// no digit.
fn append_digits(number: Natural, chars: &Vec<char>, from: usize, to: usize, Ghost(before): Ghost<
    Seq<char>,
>) -> (r: Option<Natural>)
    requires
        from <= to <= chars@.len(),
        all_digits(before),
        number@ == digits_value(before),
    ensures
        ({
            let digits = before + chars@.subrange(from as int, to as int);
            &&& r is Some <==> all_digits(digits)
            &&& r matches Some(n) ==> n@ == digits_value(digits)
        }),
{
    let mut n = number;
    let mut i: usize = from;
    let ghost all = before + chars@.subrange(from as int, to as int);
    proof {
        assert(before + chars@.subrange(from as int, from as int) =~= before);
    }
    while i < to
        invariant
            from <= i <= to <= chars@.len(),
            all == before + chars@.subrange(from as int, to as int),
            all_digits(before + chars@.subrange(from as int, i as int)),
            n@ == digits_value(before + chars@.subrange(from as int, i as int)),
        decreases to - i,
    {
        let c = chars[i];
        let ghost now = before + chars@.subrange(from as int, i + 1);
        proof {
            assert(all[before.len() + i - from] == c);
            assert(now.drop_last() =~= before + chars@.subrange(from as int, i as int));
            assert(now.last() == c);
        }
        if !('0' <= c && c <= '9') {
            return None;
        }
        n.mul_add(10, c as u32 - 48);
        proof {
            assert(now =~= (before + chars@.subrange(from as int, i as int)).push(c));
            assert(all_digits(now));
        }
        i = i + 1;
    }
    Some(n)
}

impl FloatKind {
    /// The weight of the hidden leading bit of a mantissa.
    pub open spec fn hidden(self) -> nat {
        match self {
            FloatKind::Single => 0x80_0000,
            FloatKind::Double => 0x10_0000_0000_0000,
        }
    }

    /// The exponent field of infinities and of what is not a number.
    pub open spec fn top_exponent(self) -> nat {
        match self {
            FloatKind::Single => 255,
            FloatKind::Double => 2047,
        }
    }

    /// Half a unit is two to the power minus this.
    pub open spec fn half_unit(self) -> nat {
        match self {
            FloatKind::Single => 150,
            FloatKind::Double => 1075,
        }
    }

    /// The pattern of infinity.
    pub open spec fn infinity(self) -> nat {
        self.top_exponent() * self.hidden()
    }

    /// The sign bit.
    pub open spec fn sign_bit(self) -> nat {
        match self {
            FloatKind::Single => 0x8000_0000,
            FloatKind::Double => 0x8000_0000_0000_0000,
        }
    }

    /// True for the patterns of finite numbers, of either sign.
    pub open spec fn finite(self, bits: nat) -> bool {
        bits < 2 * self.sign_bit() && bits % self.sign_bit() < self.infinity()
    }

    /// The mantissa of a pattern without sign.
    pub open spec fn mantissa(self, b: nat) -> nat {
        if b < self.hidden() {
            b
        } else {
            self.hidden() + b % self.hidden()
        }
    }

    /// The number of places by which the mantissa is shifted, in units.
    pub open spec fn shift(self, b: nat) -> nat {
        if b < self.hidden() {
            0
        } else {
            (b / self.hidden() - 1) as nat
        }
    }

    /// The number that pattern `b` denotes, in half units.
    pub open spec fn magnitude(self, b: nat) -> nat {
        (2 * self.mantissa(b)) * power(2, self.shift(b))
    }

    /// The midpoint between pattern `b` and the next one, in half units.
    pub open spec fn midpoint(self, b: nat) -> nat {
        (2 * self.mantissa(b) + 1) * power(2, self.shift(b))
    }

    /// The decimal `m * 10^e` in half units is the fraction
    /// `numerator(m, e) / tens(-e)`.
    pub open spec fn numerator(self, m: nat, e: int) -> nat {
        m * power(2, self.half_unit()) * tens(e)
    }

    /// True when the decimal `m * 10^e` lies at or below the midpoint above
    /// pattern `b`, on the side that rounds to `b` or lower: the midpoint itself
    /// goes to the even neighbour.
    pub open spec fn rounds_down_to(self, b: nat, m: nat, e: int) -> bool {
        if b % 2 == 0 {
            self.numerator(m, e) <= self.midpoint(b) * tens(-e)
        } else {
            self.numerator(m, e) < self.midpoint(b) * tens(-e)
        }
    }

    /// True when `b` is the pattern nearest to the decimal `m * 10^e`, ties
    /// going to the even pattern; from halfway above the largest finite number
    /// on, that is infinity.
    pub open spec fn rounds_to(self, b: nat, m: nat, e: int) -> bool {
        &&& b <= self.infinity()
        &&& b > 0 ==> !self.rounds_down_to((b - 1) as nat, m, e)
        &&& b < self.infinity() ==> self.rounds_down_to(b, m, e)
    }

    /// The pattern nearest to the decimal `m * 10^e`.
    pub open spec fn nearest(self, m: nat, e: int) -> nat {
        choose|b: nat| self.rounds_to(b, m, e)
    }

    pub(crate) proof fn lemma_midpoints_grow(self, a: nat, b: nat)
        requires
            a < b,
        ensures
            self.midpoint(a) < self.midpoint(b),
        decreases b - a,
    {
        if a + 1 < b {
            self.lemma_midpoints_grow(a, (b - 1) as nat);
            self.lemma_midpoints_grow((b - 1) as nat, b);
        } else {
            let h = self.hidden();
            let (m, n) = (self.mantissa(a), self.mantissa(b));
            let p = power(2, self.shift(a));
            lemma_power_positive(2, self.shift(a));
            self.lemma_next(a);
            if self.shift(b) == self.shift(a) {
                lemma_mul_strict_inequality((2 * m + 1) as int, (2 * n + 1) as int, p as int);
            } else {
                assert(power(2, self.shift(b)) == p * 2);
                assert((2 * m + 1) * p < (2 * n + 1) * (p * 2)) by (nonlinear_arith)
                    requires
                        m < 2 * n,
                        p > 0,
                ;
            }
        }
    }

    /// How mantissa and shift go on from a pattern to the next.
    pub(crate) proof fn lemma_next(self, a: nat)
        ensures
            ({
                let (m, n) = (self.mantissa(a), self.mantissa(a + 1));
                ||| self.shift(a + 1) == self.shift(a) && n == m + 1
                ||| self.shift(a + 1) == self.shift(a) + 1 && n == self.hidden() && m + 1 == 2 * n
            }),
    {
        let h = self.hidden();
        let b = a + 1;
        assert(a == h * (a / h) + a % h) by (nonlinear_arith)
            requires
                h > 0,
        ;
        if a % h == h - 1 {
            let q = a / h;
            assert(h * (q + 1) == h * q + h) by (nonlinear_arith);
            vstd::arithmetic::div_mod::lemma_fundamental_div_mod_converse(
                b as int,
                h as int,
                (a / h + 1) as int,
                0,
            );
        } else {
            vstd::arithmetic::div_mod::lemma_fundamental_div_mod_converse(
                b as int,
                h as int,
                (a / h) as int,
                (a % h + 1) as int,
            );
        }
    }

    /// A decimal has one nearest pattern.
    pub proof fn lemma_nearest_unique(self, b: nat, m: nat, e: int)
        requires
            self.rounds_to(b, m, e),
        ensures
            self.nearest(m, e) == b,
    {
        let c = self.nearest(m, e);
        assert(self.rounds_to(c, m, e));
        if b < c {
            self.lemma_rounds_to_apart(b, c, m, e);
        } else if c < b {
            self.lemma_rounds_to_apart(c, b, m, e);
        }
    }

    pub(crate) proof fn lemma_rounds_to_apart(self, a: nat, b: nat, m: nat, e: int)
        requires
            a < b,
            self.rounds_to(a, m, e),
        ensures
            !self.rounds_to(b, m, e),
    {
        let d = tens(-e);
        lemma_power_positive(10, (if -e > 0 { -e } else { 0 }) as nat);
        if a < b - 1 {
            self.lemma_midpoints_grow(a, (b - 1) as nat);
            lemma_mul_strict_inequality(
                self.midpoint(a) as int,
                self.midpoint((b - 1) as nat) as int,
                d as int,
            );
        }
    }

    // -----------------------------------------------------------------------
    // Rounding a decimal
    // -----------------------------------------------------------------------

    fn hidden_bit(self) -> (h: u64)
        ensures
            h == self.hidden(),
    {
        match self {
            FloatKind::Single => 0x80_0000,
            FloatKind::Double => 0x10_0000_0000_0000,
        }
    }

    pub(crate) fn half_unit_exponent(self) -> (n: u64)
        ensures
            n == self.half_unit(),
    {
        match self {
            FloatKind::Single => 150,
            FloatKind::Double => 1075,
        }
    }

    pub(crate) fn infinity_pattern(self) -> (b: u64)
        ensures
            b == self.infinity(),
            b % 2 == 0,
            0 < b,
    {
        match self {
            FloatKind::Single => 0x7F80_0000,
            FloatKind::Double => 0x7FF0_0000_0000_0000,
        }
    }

    pub(crate) fn mantissa_of(self, b: u64) -> (m: u64)
        ensures
            m == self.mantissa(b as nat),
            m < 2 * self.hidden(),
    {
        let h: u64 = self.hidden_bit();
        if b < h {
            b
        } else {
            h + b % h
        }
    }

    pub(crate) fn shift_of(self, b: u64) -> (n: u64)
        ensures
            n == self.shift(b as nat),
    {
        let h: u64 = self.hidden_bit();
        if b < h {
            0
        } else {
            proof {
                assert(b / h >= 1) by (nonlinear_arith)
                    requires
                        b >= h,
                        h > 0,
                ;
            }
            b / h - 1
        }
    }

    /// `tens(-e) * factor * 2^shift`, the right side of a comparison with the
    /// decimal of exponent `e`.
    pub(crate) fn scaled(factor: u64, shift: u64, e: i128) -> (n: Natural)
        requires
            e > i128::MIN,
        ensures
            n@ == factor * power(2, shift as nat) * tens(-e),
    {
        let mut n = Natural::from_u64(factor);
        n.mul_pow2(shift);
        if e < 0 {
            n.mul_pow10((-e) as u128);
        } else {
            proof {
                assert(tens(-e) == 1);
                assert(n@ * 1 == n@);
            }
        }
        n
    }

    /// The numerator of the decimal `m * 10^e`.
    pub(crate) fn decimal(self, m: &Natural, e: i128) -> (n: Natural)
        ensures
            n@ == self.numerator(m@, e as int),
    {
        let mut n = m.copy();
        n.mul_pow2(self.half_unit_exponent());
        if e > 0 {
            n.mul_pow10(e as u128);
        } else {
            proof {
                assert(tens(e as int) == 1);
                assert(n@ * 1 == n@);
            }
        }
        n
    }

    /// Decides `rounds_down_to` for the decimal with numerator `n`.
    pub(crate) fn at_or_below(self, b: u64, n: &Natural, Ghost(m): Ghost<nat>, e: i128) -> (r: bool)
        requires
            e > i128::MIN,
            n@ == self.numerator(m, e as int),
        ensures
            r == self.rounds_down_to(b as nat, m, e as int),
    {
        let middle = Self::scaled(2 * self.mantissa_of(b) + 1, self.shift_of(b), e);
        if b % 2 == 0 {
            n.at_most(&middle)
        } else {
            !middle.at_most(n)
        }
    }

    /// The pattern nearest to the decimal `m * 10^e`.
    fn round(self, m: &Natural, e: i128) -> (b: u64)
        requires
            e > i128::MIN,
        ensures
            self.rounds_to(b as nat, m@, e as int),
    {
        let n = self.decimal(m, e);
        let mut lo: u64 = 0;
        let mut hi: u64 = self.infinity_pattern();
        while lo < hi
            invariant
                e > i128::MIN,
                n@ == self.numerator(m@, e as int),
                lo <= hi <= self.infinity(),
                lo > 0 ==> !self.rounds_down_to((lo - 1) as nat, m@, e as int),
                hi < self.infinity() ==> self.rounds_down_to(hi as nat, m@, e as int),
            decreases hi - lo,
        {
            let mid: u64 = lo + (hi - lo) / 2;
            if self.at_or_below(mid, &n, Ghost(m@), e) {
                hi = mid;
            } else {
                lo = mid + 1;
            }
        }
        lo
    }

    // -----------------------------------------------------------------------
    // Decimals out of range
    // -----------------------------------------------------------------------

    /// A decimal of at least this exponent is infinite, unless it is zero.
    pub open spec fn vast(self) -> nat {
        match self {
            FloatKind::Single => 100,
            FloatKind::Double => 400,
        }
    }

    pub(crate) fn vast_exponent(self) -> (e: i128)
        ensures
            e == self.vast(),
            e <= 2000,
    {
        match self {
            FloatKind::Single => 100,
            FloatKind::Double => 400,
        }
    }

    proof fn lemma_tens_exceed(n: nat)
        ensures
            power(10, n) >= power(2, 3 * n),
        decreases n,
    {
        if n > 0 {
            Self::lemma_tens_exceed((n - 1) as nat);
            let k = (3 * n - 3) as nat;
            assert(power(2, k + 1) == power(2, k) * 2);
            assert(power(2, k + 2) == power(2, k + 1) * 2);
            assert(power(2, k + 3) == power(2, k + 2) * 2);
        }
    }

    proof fn lemma_power_grows(base: nat, m: nat, n: nat)
        requires
            base > 0,
            m <= n,
        ensures
            power(base, m) <= power(base, n),
    {
        lemma_power_add(base, m, (n - m) as nat);
        lemma_power_positive(base, (n - m) as nat);
        let (a, b) = (power(base, m), power(base, (n - m) as nat));
        assert(a <= a * b) by (nonlinear_arith)
            requires
                b >= 1,
        ;
    }

    /// The number of fraction bits.
    spec fn fraction_bits(self) -> nat {
        match self {
            FloatKind::Single => 23,
            FloatKind::Double => 52,
        }
    }

    proof fn lemma_hidden(self)
        ensures
            self.hidden() == power(2, self.fraction_bits()),
    {
        assert(power(2, 13) == 0x2000) by {
            reveal_with_fuel(power, 14);
        }
        lemma_power_add(2, 13, 13);
        lemma_power_add(2, 26, 26);
        assert(power(2, 10) == 0x400) by {
            reveal_with_fuel(power, 11);
        }
        lemma_power_add(2, 13, 10);
        let (a, b, c) = (power(2, 13), power(2, 26), power(2, 10));
        assert(a * a == 0x400_0000 && a * c == 0x80_0000) by (nonlinear_arith)
            requires
                a == 0x2000,
                c == 0x400,
        ;
        assert(b * b == 0x10_0000_0000_0000) by (nonlinear_arith)
            requires
                b == 0x400_0000,
        ;
    }

    /// The midpoint below infinity.
    proof fn lemma_last_midpoint(self)
        ensures
            self.midpoint((self.infinity() - 1) as nat) <= power(
                2,
                self.fraction_bits() + self.top_exponent(),
            ),
    {
        let b = (self.infinity() - 1) as nat;
        let h = self.hidden();
        let top = self.top_exponent();
        self.lemma_hidden();
        assert(b / h == top - 1 && b % h == h - 1);
        let s = power(2, (top - 2) as nat);
        assert(self.midpoint(b) == (4 * h - 1) * s);
        assert((4 * h - 1) * s <= h * (s * 2 * 2)) by (nonlinear_arith)
            requires
                h > 0,
        ;
        assert(power(2, (top - 1) as nat) == s * 2);
        assert(power(2, top) == s * 2 * 2);
        lemma_power_add(2, self.fraction_bits(), top);
    }

    /// A vast decimal rounds to infinity.
    pub(crate) proof fn lemma_vast(self, m: nat, e: int)
        requires
            m > 0,
            e >= self.vast(),
        ensures
            self.rounds_to(self.infinity(), m, e),
    {
        let b = (self.infinity() - 1) as nat;
        let u = power(2, self.half_unit());
        let t = power(2, 3 * self.vast());
        let d = power(10, e as nat);
        self.lemma_last_midpoint();
        Self::lemma_power_grows(
            2,
            self.fraction_bits() + self.top_exponent(),
            self.half_unit() + 3 * self.vast(),
        );
        lemma_power_add(2, self.half_unit(), 3 * self.vast());
        Self::lemma_tens_exceed(self.vast());
        Self::lemma_power_grows(10, self.vast(), e as nat);
        assert(u * t <= m * u * d) by (nonlinear_arith)
            requires
                t <= d,
                m >= 1,
        ;
        assert(tens(-e) == 1);
        assert(self.midpoint(b) * 1 == self.midpoint(b));
        assert(b % 2 == 1);
    }

    /// A decimal with `n` digits that lies below `10^-400` rounds to zero.
    proof fn lemma_tiny(self, m: nat, n: nat, e: int)
        requires
            m < power(10, n),
            n + e <= -400,
        ensures
            self.rounds_to(0, m, e),
    {
        let d = power(10, (-e) as nat);
        let u = power(2, self.half_unit());
        Self::lemma_power_grows(10, n + 400, (-e) as nat);
        lemma_power_add(10, n, 400);
        Self::lemma_tens_exceed(400);
        Self::lemma_power_grows(2, self.half_unit(), 1200);
        assert(m * u <= power(10, n) * power(10, 400)) by (nonlinear_arith)
            requires
                m <= power(10, n),
                u <= power(10, 400),
        ;
        assert(tens(e) == 1);
        assert(m * u * 1 == m * u);
        assert(power(2, 0) == 1);
        assert(self.midpoint(0) == 1 * power(2, 0));
        assert(1 * d == d);
    }

    // -----------------------------------------------------------------------
    // Reading
    // -----------------------------------------------------------------------

    /// What `text`, without surrounding white space, says of a number of this
    /// format.
    pub open spec fn reading(self, text: Seq<char>) -> Reading {
        let s = trim(text);
        let negative = s.len() > 0 && s[0] == '-';
        let body = if s.len() > 0 && (negative || s[0] == '+') {
            s.drop_first()
        } else {
            s
        };
        if names_no_number(body) {
            Reading::NotFinite
        } else {
            match read_decimal(body) {
                None => Reading::Invalid,
                Some((m, e)) => {
                    let b = self.nearest(m, e);
                    if b >= self.infinity() {
                        Reading::NotFinite
                    } else if negative {
                        Reading::Bits((self.sign_bit() + b) as u64)
                    } else {
                        Reading::Bits(b as u64)
                    }
                },
            }
        }
    }

    pub(crate) fn sign_pattern(self) -> (b: u64)
        ensures
            b == self.sign_bit(),
            self.infinity() < b,
    {
        match self {
            FloatKind::Single => 0x8000_0000,
            FloatKind::Double => 0x8000_0000_0000_0000,
        }
    }

    /// The pattern nearest to the decimal that `chars[from..]` spells.
    #[verifier::rlimit(40)]
    fn nearest_at(self, chars: &Vec<char>, from: usize) -> (r: Option<u64>)
        requires
            from <= chars@.len(),
        ensures
            match r {
                Some(b) => read_decimal(chars@.skip(from as int)) is Some && ({
                    let (m, e) = read_decimal(chars@.skip(from as int))->0;
                    b == self.nearest(m, e) && b <= self.infinity()
                }),
                None => read_decimal(chars@.skip(from as int)) is None,
            },
    {
        let ghost s = chars@.skip(from as int);
        let n: usize = chars.len();
        proof {
            assert(chars@.subrange(from as int, n as int) =~= s);
        }
        let i: usize = position(chars, from, n, 'e', 'E');
        let ghost number = s.take(i - from);
        proof {
            assert(chars@.subrange(from as int, i as int) =~= number);
        }
        let exponent: i128 = if i == n {
            0
        } else {
            proof {
                assert(chars@.skip(i + 1) =~= s.skip(i - from + 1));
            }
            match exponent_at(chars, i + 1) {
                Some(v) => v,
                None => {
                    return None;
                },
            }
        };
        let ghost true_exponent: int = if i == n {
            0
        } else {
            read_int(s.skip(i - from + 1), true)->0
        };
        let j: usize = position(chars, from, i, '.', '.');
        let start: usize = if j == i {
            i
        } else {
            j + 1
        };
        let ghost fraction: Seq<char> = if j == i {
            seq![]
        } else {
            number.skip(j - from + 1)
        };
        let ghost digits = number.take(j - from) + fraction;
        proof {
            assert(chars@.subrange(start as int, i as int) =~= fraction);
            assert(chars@.subrange(from as int, j as int) =~= number.take(j - from));
            assert(Seq::<char>::empty() + chars@.subrange(from as int, j as int) =~= number.take(
                j - from,
            ));
        }
        let count: usize = (j - from) + (i - start);
        if count == 0 {
            return None;
        }
        let whole = match append_digits(
            Natural::from_u64(0),
            chars,
            from,
            j,
            Ghost(Seq::<char>::empty()),
        ) {
            Some(v) => v,
            None => {
                proof {
                    let w = number.take(j - from);
                    assert(exists|k: int| 0 <= k < w.len() && !is_digit(#[trigger] w[k]));
                    let k = choose|k: int| 0 <= k < w.len() && !is_digit(#[trigger] w[k]);
                    assert(digits[k] == w[k]);
                }
                return None;
            },
        };
        let m = match append_digits(whole, chars, start, i, Ghost(number.take(j - from))) {
            Some(v) => v,
            None => {
                return None;
            },
        };
        let ghost e: int = true_exponent - fraction.len();
        proof {
            assert(read_decimal(s) == Some((digits_value(digits), e)));
            lemma_digits_bound(digits);
        }
        let shifted: i128 = exponent - (i - start) as i128;
        let zero = m.at_most(&Natural::from_u64(0));
        let vast: i128 = self.vast_exponent();
        let b: u64 = if zero || shifted + count as i128 <= -400 {
            proof {
                if m@ == 0 {
                    self.lemma_zero(e);
                } else {
                    self.lemma_tiny(m@, digits.len(), e);
                }
            }
            0
        } else if shifted >= vast {
            proof {
                self.lemma_vast(m@, e);
            }
            self.infinity_pattern()
        } else {
            proof {
                assert(exponent == true_exponent);
            }
            self.round(&m, shifted)
        };
        proof {
            self.lemma_nearest_unique(b as nat, m@, e);
        }
        Some(b)
    }

    /// Zero rounds to zero.
    pub(crate) proof fn lemma_zero(self, e: int)
        ensures
            self.rounds_to(0, 0, e),
    {
        assert(0 * power(2, self.half_unit()) * tens(e) == 0) by (nonlinear_arith);
    }

    /// Read a number of this format.
    pub fn read(self, text: &str) -> (r: Reading)
        ensures
            r == self.reading(text@),
    {
        let chars = trimmed(text);
        let negative = chars.len() > 0 && chars[0] == '-';
        let from: usize = if chars.len() > 0 && (negative || chars[0] == '+') {
            1
        } else {
            0
        };
        let ghost body = chars@.skip(from as int);
        proof {
            assert(from == 1 ==> body =~= chars@.drop_first());
            assert(from == 0 ==> body =~= chars@);
        }
        let inf: Vec<char> = vec!['i', 'n', 'f'];
        let infinity: Vec<char> = vec!['i', 'n', 'f', 'i', 'n', 'i', 't', 'y'];
        let nan: Vec<char> = vec!['n', 'a', 'n'];
        proof {
            assert(inf@ =~= seq!['i', 'n', 'f']);
            assert(infinity@ =~= seq!['i', 'n', 'f', 'i', 'n', 'i', 't', 'y']);
            assert(nan@ =~= seq!['n', 'a', 'n']);
        }
        if spells_word(&chars, from, &inf) || spells_word(&chars, from, &infinity) || spells_word(
            &chars,
            from,
            &nan,
        ) {
            return Reading::NotFinite;
        }
        match self.nearest_at(&chars, from) {
            None => Reading::Invalid,
            Some(b) => {
                if b >= self.infinity_pattern() {
                    Reading::NotFinite
                } else if negative {
                    Reading::Bits(self.sign_pattern() + b)
                } else {
                    Reading::Bits(b)
                }
            },
        }
    }

    /// What reads as a number is finite and fits the format.
    pub proof fn lemma_reading_is_finite(self, text: Seq<char>)
        ensures
            self.reading(text) matches Reading::Bits(b) ==> self.finite(b as nat),
    {
    }

    // -----------------------------------------------------------------------
    // Comparing
    // -----------------------------------------------------------------------

    /// True when the pattern denotes a number from 0 to `max`. What is not a
    /// number lies in no range; the negative zero is zero.
    pub open spec fn within(self, bits: nat, max: nat) -> bool {
        if bits >= self.sign_bit() {
            bits == self.sign_bit()
        } else {
            bits < self.infinity() && self.magnitude(bits) * tens(0) <= self.numerator(max, 0)
        }
    }

    /// True when the pattern denotes a number from 0 to `max`.
    pub fn is_within(self, bits: u64, max: u64) -> (b: bool)
        ensures
            b == self.within(bits as nat, max as nat),
    {
        let sign: u64 = self.sign_pattern();
        if bits >= sign {
            return bits == sign;
        }
        if bits >= self.infinity_pattern() {
            return false;
        }
        let value = Self::scaled(2 * self.mantissa_of(bits), self.shift_of(bits), 0);
        let limit = self.decimal(&Natural::from_u64(max), 0);
        value.at_most(&limit)
    }
}

} // verus!
