//! Floating-point numbers as text: the shortest decimal that reads back.

use crate::float::{
    lemma_first_of, lower, names_no_number, read_decimal, spells, tens, FloatKind, Reading,
};
use crate::natural::{lemma_power_positive, power, Natural};
use crate::text::{
    all_digits, dec, dec_padded, digits_value, is_digit, is_space, lemma_dec_reads_back, push_dec,
    push_dec_padded, trim, zeros,
};
use vstd::arithmetic::mul::lemma_mul_strict_inequality;
use vstd::prelude::*;

verus! {

/// The decimal `n * 10^q`, written out in full.
pub open spec fn decimal_text(n: nat, q: int) -> Seq<char> {
    if q >= 0 {
        dec(n) + zeros(q as nat)
    } else {
        let p = power(10, (-q) as nat);
        dec(n / p) + seq!['.'] + dec_padded(n % p, (-q) as nat)
    }
}

/// Append the decimal `n * 10^q`, written out in full.
fn push_decimal(out: &mut String, n: u64, q: i128)
    requires
        -2000 <= q <= 2000,
    ensures
        final(out)@ == old(out)@ + decimal_text(n as nat, q as int),
{
    let ghost before = out@;
    if q >= 0 {
        push_dec(out, n);
        let mut i: i128 = 0;
        let ghost digits = before + dec(n as nat);
        while i < q
            invariant
                0 <= i <= q,
                out@ == digits + zeros(i as nat),
            decreases q - i,
        {
            out.push('0');
            proof {
                assert(out@ =~= digits + zeros((i + 1) as nat));
            }
            i = i + 1;
        }
        proof {
            assert(out@ =~= before + decimal_text(n as nat, q as int));
        }
    } else {
        let places: usize = (-q) as usize;
        let mut p: u64 = 1;
        let mut i: usize = 0;
        let ghost ten = power(10, places as nat);
        proof {
            lemma_power_positive(10, places as nat);
        }
        while i < places && p <= n / 10
            invariant
                i <= places <= 2000,
                p == power(10, i as nat),
                0 < p,
                i > 0 ==> p <= n,
            decreases places - i,
        {
            p = p * 10;
            i = i + 1;
        }
        proof {
            lemma_power_positive(10, places as nat);
        }
        if i == places {
            push_dec(out, n / p);
            out.push('.');
            push_dec_padded(out, n % p, places);
        } else {
            proof {
                lemma_power_from(n as nat, i as nat, places as nat);
                vstd::arithmetic::div_mod::lemma_small_mod(n as nat, ten);
                vstd::arithmetic::div_mod::lemma_basic_div(n as int, ten as int);
            }
            push_dec(out, 0);
            out.push('.');
            push_dec_padded(out, n, places);
        }
        proof {
            assert(out@ =~= before + decimal_text(n as nat, q as int));
        }
    }
}

/// A number below ten times a power of ten is below every higher power.
proof fn lemma_power_from(n: nat, i: nat, k: nat)
    requires
        i < k,
        power(10, i) > n / 10,
    ensures
        n < power(10, k),
    decreases k,
{
    if i + 1 < k {
        lemma_power_from(n, i, (k - 1) as nat);
    }
    assert(power(10, k) == power(10, (k - 1) as nat) * 10);
}

// ---------------------------------------------------------------------------
// Digits
// ---------------------------------------------------------------------------

proof fn lemma_digits_concat(a: Seq<char>, b: Seq<char>)
    ensures
        digits_value(a + b) == digits_value(a) * power(10, b.len()) + digits_value(b),
    decreases b.len(),
{
    if b.len() == 0 {
        assert(a + b =~= a);
        assert(power(10, 0) == 1);
        assert(digits_value(a) * 1 == digits_value(a));
    } else {
        let c = b.drop_last();
        lemma_digits_concat(a, c);
        assert((a + b).drop_last() =~= a + c);
        let (x, p) = (digits_value(a), power(10, c.len()));
        assert(power(10, b.len()) == p * 10);
        assert((x * p) * 10 == x * (p * 10)) by (nonlinear_arith);
    }
}

proof fn lemma_zeros_value(k: nat)
    ensures
        digits_value(zeros(k)) == 0,
    decreases k,
{
    if k > 0 {
        lemma_zeros_value((k - 1) as nat);
        assert(zeros(k).drop_last() =~= zeros((k - 1) as nat));
    }
}

proof fn lemma_dec_len(n: nat, k: nat)
    requires
        n < power(10, k),
        k >= 1,
    ensures
        dec(n).len() <= k,
    decreases k,
{
    if n >= 10 {
        assert(power(10, 0) == 1);
        assert(power(10, k) == power(10, (k - 1) as nat) * 10);
        assert(k > 1);
        lemma_dec_len(n / 10, (k - 1) as nat);
    }
}

/// A padded numeral is a run of digits of that width that denotes its number.
pub(crate) proof fn lemma_dec_padded(n: nat, k: nat)
    requires
        n < power(10, k),
        k >= 1,
    ensures
        dec_padded(n, k).len() == k,
        all_digits(dec_padded(n, k)),
        digits_value(dec_padded(n, k)) == n,
{
    lemma_dec_len(n, k);
    lemma_dec_reads_back(n);
    if dec(n).len() < k {
        let z = (k - dec(n).len()) as nat;
        lemma_digits_concat(zeros(z), dec(n));
        lemma_zeros_value(z);
    }
}

/// A decimal written out in full reads back as a decimal of the same value.
pub(crate) proof fn lemma_decimal_reads(n: nat, q: int)
    ensures
        ({
            let s = decimal_text(n, q);
            &&& s.len() > 0
            &&& is_digit(s[0])
            &&& is_digit(s.last())
            &&& read_decimal(s) == Some(
                if q >= 0 {
                    (n * power(10, q as nat), 0)
                } else {
                    (n, q)
                },
            )
        }),
{
    let s = decimal_text(n, q);
    if q >= 0 {
        lemma_dec_reads_back(n);
        lemma_digits_concat(dec(n), zeros(q as nat));
        lemma_zeros_value(q as nat);
        assert(all_digits(s));
        assert(is_digit(s[0]) && is_digit(s.last()));
        lemma_first_of(s, 'e', 'E', s.len());
        assert(s.take(s.len() as int) =~= s);
        lemma_first_of(s, '.', '.', s.len());
        assert(s + seq![] =~= s);
    } else {
        let k = (-q) as nat;
        let p = power(10, k);
        lemma_power_positive(10, k);
        let (a, b) = (n / p, n % p);
        assert(n == a * p + b && b < p) by (nonlinear_arith)
            requires
                p > 0,
                a == n / p,
                b == n % p,
        ;
        let (x, y) = (dec(a), dec_padded(b, k));
        lemma_dec_reads_back(a);
        lemma_dec_padded(b, k);
        lemma_digits_concat(x, y);
        assert(forall|i: int| 0 <= i < x.len() ==> s[i] == x[i]);
        assert(s[x.len() as int] == '.');
        assert(forall|i: int| 0 <= i < y.len() ==> s[x.len() + 1 + i] == y[i]);
        assert(is_digit(s[0]));
        assert(s.last() == y.last() && is_digit(y.last()));
        assert forall|i: int| 0 <= i < s.len() implies s[i] != 'e' && s[i] != 'E' by {
            if i > x.len() {
                assert(s[i] == y[i - x.len() - 1]);
                assert(is_digit(y[i - x.len() - 1]));
            } else if i < x.len() {
                assert(is_digit(x[i]));
            }
        }
        lemma_first_of(s, 'e', 'E', s.len());
        assert(s.take(s.len() as int) =~= s);
        assert forall|i: int| 0 <= i < x.len() implies s[i] != '.' by {
            assert(is_digit(x[i]));
        }
        lemma_first_of(s, '.', '.', x.len());
        assert(s.take(x.len() as int) =~= x);
        assert(s.skip(x.len() as int + 1) =~= y);
        assert(all_digits(x + y));
    }
}

impl FloatKind {
    /// How far the decimal `n * 10^q` is from pattern `b`.
    pub open spec fn distance(self, b: nat, n: nat, q: int) -> nat {
        let (x, y) = (self.numerator(n, q), self.magnitude(b) * tens(-q));
        if x < y {
            (y - x) as nat
        } else {
            (x - y) as nat
        }
    }

    /// True when `n * 10^q` is the shortest decimal that reads back as pattern
    /// `b`: no decimal with a higher last place does, and among those with this
    /// last place it is the closest, the larger of two equally close ones.
    pub open spec fn is_shortest(self, b: nat, n: nat, q: int) -> bool {
        &&& self.rounds_to(b, n, q)
        &&& forall|n2: nat, q2: int| q2 > q ==> !(#[trigger] self.rounds_to(b, n2, q2))
        &&& forall|n2: nat|
            #[trigger] self.rounds_to(b, n2, q) ==> self.distance(b, n, q) < self.distance(
                b,
                n2,
                q,
            ) || (self.distance(b, n, q) == self.distance(b, n2, q) && n2 <= n)
    }

    /// The shortest decimal that reads back as pattern `b`.
    pub open spec fn shortest(self, b: nat) -> (nat, int) {
        choose|p: (nat, int)| self.is_shortest(b, p.0, p.1)
    }

    /// A pattern has one shortest decimal.
    pub proof fn lemma_shortest_unique(self, b: nat, n: nat, q: int)
        requires
            self.is_shortest(b, n, q),
        ensures
            self.shortest(b) == (n, q),
    {
        let p = (n, q);
        assert(self.is_shortest(b, p.0, p.1));
        let (n2, q2) = self.shortest(b);
        assert(self.is_shortest(b, n2, q2));
        assert(self.rounds_to(b, n2, q2) && self.rounds_to(b, n, q));
    }

    proof fn lemma_numerator_grows(self, m: nat, n: nat, q: int)
        ensures
            m <= n ==> self.numerator(m, q) <= self.numerator(n, q),
            m < n ==> self.numerator(m, q) < self.numerator(n, q),
            self.numerator(m + n, q) == self.numerator(m, q) + self.numerator(n, q),
    {
        let (u, t) = (power(2, self.half_unit()), tens(q));
        lemma_power_positive(2, self.half_unit());
        lemma_power_positive(10, (if q > 0 { q } else { 0 }) as nat);
        assert(m <= n ==> m * u * t <= n * u * t) by (nonlinear_arith);
        assert(m < n ==> m * u * t < n * u * t) by (nonlinear_arith)
            requires
                u > 0,
                t > 0,
        ;
        assert((m + n) * u * t == m * u * t + n * u * t) by (nonlinear_arith);
    }

    /// Writing a decimal with one more place leaves its value as it is.
    proof fn lemma_one_more_place(self, n: nat, q: int)
        ensures
            ({
                let f: nat = if q > 0 { 1 } else { 10 };
                &&& self.numerator(10 * n, q - 1) == f * self.numerator(n, q)
                &&& tens(1 - q) == f * tens(-q)
            }),
    {
        let u = power(2, self.half_unit());
        if q > 0 {
            let t = power(10, (q - 1) as nat);
            assert(tens(q) == t * 10);
            assert(tens(q - 1) == t);
            assert(10 * n * u * t == n * u * (t * 10)) by (nonlinear_arith);
        } else {
            assert(tens(1 - q) == tens(-q) * 10);
            assert(tens(q) == 1 && tens(q - 1) == 1);
            assert((10 * n) * u * 1 == 10 * (n * u * 1)) by (nonlinear_arith);
        }
    }

    proof fn lemma_above(self, k: nat, n: nat, q: int, q2: int)
        requires
            n >= 1,
            q <= q2,
        ensures
            self.numerator(1, q) > k * tens(-q) ==> self.numerator(n, q2) > k * tens(-q2),
            self.numerator(1, q) >= k * tens(-q) ==> self.numerator(n, q2) >= k * tens(-q2),
        decreases q2 - q,
    {
        if q == q2 {
            self.lemma_numerator_grows(1, n, q);
        } else {
            self.lemma_above(k, 1, q, q2 - 1);
            self.lemma_numerator_grows(1, 10, q2 - 1);
            self.lemma_one_more_place(1, q2);
            self.lemma_numerator_grows(1, n, q2);
            let f: nat = if q2 > 0 { 1 } else { 10 };
            let (x, d) = (self.numerator(1, q2), tens(-q2));
            assert(k * (f * d) == f * (k * d)) by (nonlinear_arith);
            assert(10 * 1nat == 10nat);
            assert(f * x == self.numerator(10, q2 - 1));
        }
    }

    pub(crate) proof fn lemma_down_grows(self, a: nat, b: nat, n: nat, q: int)
        requires
            a <= b,
            self.rounds_down_to(a, n, q),
        ensures
            self.rounds_down_to(b, n, q),
    {
        if a < b {
            self.lemma_midpoints_grow(a, b);
            lemma_power_positive(10, (if -q > 0 { -q } else { 0 }) as nat);
            lemma_mul_strict_inequality(
                self.midpoint(a) as int,
                self.midpoint(b) as int,
                tens(-q) as int,
            );
        }
    }

    /// The number of a pattern lies between its midpoints, and is at most four
    /// mantissas away from zero, counted in its distance to the lower one.
    pub(crate) proof fn lemma_between(self, b: nat)
        requires
            b > 0,
        ensures
            self.midpoint((b - 1) as nat) < self.magnitude(b) < self.midpoint(b),
            self.magnitude(b) <= 4 * self.mantissa(b) * (self.magnitude(b) - self.midpoint(
                (b - 1) as nat,
            )),
    {
        let a = (b - 1) as nat;
        self.lemma_next(a);
        let (m, n) = (self.mantissa(a), self.mantissa(b));
        let p = power(2, self.shift(a));
        lemma_power_positive(2, self.shift(a));
        lemma_power_positive(2, self.shift(b));
        if self.shift(b) == self.shift(a) {
            assert((2 * n) * p == (2 * m + 1) * p + p) by (nonlinear_arith)
                requires
                    n == m + 1,
            ;
            assert((2 * n + 1) * p == (2 * n) * p + p) by (nonlinear_arith);
            assert((2 * n) * p <= 4 * n * p) by (nonlinear_arith);
        } else {
            let r = p * 2;
            assert(power(2, self.shift(b)) == r);
            assert((2 * n) * r == (2 * m + 1) * p + p) by (nonlinear_arith)
                requires
                    m + 1 == 2 * n,
                    r == p * 2,
            ;
            assert((2 * n + 1) * r == (2 * n) * r + r) by (nonlinear_arith);
            assert((2 * n) * r == 4 * n * p) by (nonlinear_arith)
                requires
                    r == p * 2,
            ;
        }
    }

    /// With as many places as half a unit has binary ones, a pattern is a
    /// decimal exactly.
    proof fn lemma_exact(self, b: nat) -> (n: nat)
        ensures
            self.numerator(n, -(self.half_unit() as int)) == self.magnitude(b) * tens(
                self.half_unit() as int,
            ),
    {
        let h = self.half_unit();
        let (two, five) = (power(2, h), power(5, h));
        Self::lemma_ten_splits(h);
        let n = self.magnitude(b) * five;
        let v = self.magnitude(b);
        assert((v * five) * two * 1 == v * (five * two)) by (nonlinear_arith);
        n
    }

    proof fn lemma_ten_splits(n: nat)
        ensures
            power(10, n) == power(5, n) * power(2, n),
        decreases n,
    {
        if n > 0 {
            Self::lemma_ten_splits((n - 1) as nat);
            let (a, b) = (power(5, (n - 1) as nat), power(2, (n - 1) as nat));
            assert((a * b) * 10 == (a * 5) * (b * 2)) by (nonlinear_arith);
            assert(power(10, n) == power(10, (n - 1) as nat) * 10);
            assert(power(5, n) == a * 5);
            assert(power(2, n) == b * 2);
        } else {
            assert(power(5, 0) * power(2, 0) == 1) by (nonlinear_arith)
                requires
                    power(5, 0) == 1,
                    power(2, 0) == 1,
            ;
        }
    }

    /// True when no decimal of last place `q` or higher reads back as `b`.
    pub(crate) open spec fn none_from(self, b: nat, q: int) -> bool {
        forall|n2: nat, q2: int| q2 >= q ==> !(#[trigger] self.rounds_to(b, n2, q2))
    }

    pub(crate) proof fn lemma_none_from_start(self, b: nat, q: int)
        requires
            0 < b < self.infinity(),
            !self.rounds_down_to(b, 1, q),
        ensures
            self.none_from(b, q),
            self.numerator(0, q) <= self.magnitude(b) * tens(-q) < self.numerator(1, q),
    {
        assert forall|n2: nat, q2: int| q2 >= q implies !(#[trigger] self.rounds_to(b, n2, q2)) by {
            if n2 == 0 {
                self.lemma_zero(q2);
                self.lemma_rounds_to_apart(0, b, 0, q2);
            } else {
                self.lemma_above(self.midpoint(b), n2, q, q2);
            }
        }
        self.lemma_between(b);
        lemma_power_positive(10, (if -q > 0 { -q } else { 0 }) as nat);
        lemma_mul_strict_inequality(
            self.magnitude(b) as int,
            self.midpoint(b) as int,
            tens(-q) as int,
        );
        self.lemma_zero(q);
        let (u, t) = (power(2, self.half_unit()), tens(q));
        assert(0 * u * t == 0) by (nonlinear_arith);
    }

    proof fn lemma_none_from_bound(self, b: nat, q: int)
        requires
            0 < b < self.infinity(),
            self.none_from(b, q),
        ensures
            q > -(self.half_unit() as int),
    {
        let e = -(self.half_unit() as int);
        let n = self.lemma_exact(b);
        self.lemma_between(b);
        let d = tens(-e);
        lemma_power_positive(10, self.half_unit());
        lemma_mul_strict_inequality(self.magnitude(b) as int, self.midpoint(b) as int, d as int);
        lemma_mul_strict_inequality(
            self.midpoint((b - 1) as nat) as int,
            self.magnitude(b) as int,
            d as int,
        );
        assert(self.rounds_to(b, n, e));
    }

    /// A first exponent for the search: ten to that power rounds above `b`.
    fn start_exponent(self, b: u64) -> (q: i128)
        requires
            0 < b < self.infinity(),
        ensures
            !self.rounds_down_to(b as nat, 1, q as int),
            -2000 <= q <= 2000,
    {
        let one = Natural::from_u64(1);
        let mut lo: i128 = -2000;
        let mut hi: i128 = self.vast_exponent();
        proof {
            self.lemma_vast(1, hi as int);
            if self.rounds_down_to(b as nat, 1, hi as int) {
                self.lemma_down_grows(b as nat, (self.infinity() - 1) as nat, 1, hi as int);
            }
        }
        while lo < hi
            invariant
                0 < b < self.infinity(),
                one@ == 1,
                -2000 <= lo <= hi <= 2000,
                !self.rounds_down_to(b as nat, 1, hi as int),
            decreases hi - lo,
        {
            let mid: i128 = lo + (hi - lo) / 2;
            let n = self.decimal(&one, mid);
            if self.at_or_below(b, &n, Ghost(1), mid) {
                lo = mid + 1;
            } else {
                hi = mid;
            }
        }
        hi
    }

    /// True when `n` is the part of pattern `b` down to the place `q`.
    spec fn is_floor(self, b: nat, n: nat, q: int) -> bool {
        self.numerator(n, q) <= self.magnitude(b) * tens(-q) < self.numerator(n + 1, q)
    }

    /// Of the decimals with last place `q` only the two around `b` need be
    /// looked at, and each from its own side.
    proof fn lemma_around(self, b: nat, n: nat, q: int)
        requires
            0 < b < self.infinity(),
            self.is_floor(b, n, q),
        ensures
            self.rounds_down_to(b, n, q),
            !self.rounds_down_to((b - 1) as nat, n + 1, q),
            forall|n2: nat| n2 < n && #[trigger] self.rounds_to(b, n2, q) ==> self.rounds_to(b, n, q),
            forall|n2: nat| n2 > n && #[trigger] self.rounds_to(b, n2, q) ==> self.rounds_to(b, n + 1, q),
    {
        let d = tens(-q);
        self.lemma_between(b);
        lemma_power_positive(10, (if -q > 0 { -q } else { 0 }) as nat);
        lemma_mul_strict_inequality(self.magnitude(b) as int, self.midpoint(b) as int, d as int);
        lemma_mul_strict_inequality(
            self.midpoint((b - 1) as nat) as int,
            self.magnitude(b) as int,
            d as int,
        );
        assert forall|n2: nat| n2 < n && #[trigger] self.rounds_to(b, n2, q) implies self.rounds_to(
            b,
            n,
            q,
        ) by {
            self.lemma_numerator_grows(n2, n, q);
        }
        assert forall|n2: nat| n2 > n && #[trigger] self.rounds_to(b, n2, q) implies self.rounds_to(
            b,
            n + 1,
            q,
        ) by {
            self.lemma_numerator_grows(n + 1, n2, q);
        }
    }

    /// Where the part down to a place does not read back, it is small.
    proof fn lemma_floor_small(self, b: nat, n: nat, q: int)
        requires
            0 < b < self.infinity(),
            self.is_floor(b, n, q),
            self.rounds_down_to((b - 1) as nat, n, q),
        ensures
            n <= 4 * self.mantissa(b),
    {
        let d = tens(-q);
        let v = self.magnitude(b);
        let m = self.midpoint((b - 1) as nat);
        let g = (v - m) as nat;
        let k = 4 * self.mantissa(b);
        let x = self.numerator(1, q);
        self.lemma_between(b);
        self.lemma_numerator_grows(n, 1, q);
        let u = power(2, self.half_unit());
        let t = tens(q);
        assert(self.numerator(n, q) == n * x) by (nonlinear_arith)
            requires
                self.numerator(n, q) == n * u * t,
                x == 1 * u * t,
        ;
        assert(g * d == v * d - m * d) by (nonlinear_arith)
            requires
                g == v - m,
        ;
        assert(v * d <= (k * g) * d) by (nonlinear_arith)
            requires
                v <= k * g,
        ;
        assert((k * g) * d == k * (g * d)) by (nonlinear_arith);
        lemma_power_positive(2, self.half_unit());
        lemma_power_positive(10, (if q > 0 { q } else { 0 }) as nat);
        assert(x > 0) by (nonlinear_arith)
            requires
                x == 1 * u * t,
                u > 0,
                t > 0,
        ;
        assert(g * d <= x);
        assert(n <= k) by (nonlinear_arith)
            requires
                n * x <= k * (g * d),
                g * d <= x,
                x > 0,
        ;
    }

    proof fn lemma_floor_next(self, b: nat, n: nat, q: int)
        requires
            self.is_floor(b, n, q),
        ensures
            self.numerator(10 * n, q - 1) <= self.magnitude(b) * tens(1 - q) < self.numerator(
                10 * n + 10,
                q - 1,
            ),
    {
        let f: nat = if q > 0 { 1 } else { 10 };
        let (v, d) = (self.magnitude(b), tens(-q));
        self.lemma_one_more_place(n, q);
        self.lemma_one_more_place(n + 1, q);
        assert(v * (f * d) == f * (v * d)) by (nonlinear_arith);
        assert(10 * (n + 1) == 10 * n + 10);
    }

    /// Of the two decimals around `b` the chosen one is the shortest.
    proof fn lemma_pick(self, b: nat, n: nat, q: int, c: nat)
        requires
            0 < b < self.infinity(),
            self.is_floor(b, n, q),
            self.none_from(b, q + 1),
            self.rounds_to(b, c, q),
            c == n || c == n + 1,
            self.rounds_to(b, n, q) && self.rounds_to(b, n + 1, q) ==> (c == n + 1
                <==> self.numerator(2 * n + 1, q) <= 2 * (self.magnitude(b) * tens(-q))),
        ensures
            self.is_shortest(b, c, q),
    {
        self.lemma_around(b, n, q);
        self.lemma_numerator_grows(n, n + 1, q);
        assert(n + (n + 1) == 2 * n + 1);
        assert forall|n2: nat|
            #[trigger] self.rounds_to(b, n2, q) implies self.distance(b, c, q) < self.distance(
            b,
            n2,
            q,
        ) || (self.distance(b, c, q) == self.distance(b, n2, q) && n2 <= c) by {
            self.lemma_numerator_grows(n2, n, q);
            self.lemma_numerator_grows(n + 1, n2, q);
        }
    }

    /// The shortest decimal `n * 10^q` that reads back as the pattern `b`.
    fn shortest_decimal(self, b: u64) -> (r: (u64, i128))
        requires
            0 < b < self.infinity(),
        ensures
            self.is_shortest(b as nat, r.0 as nat, r.1 as int),
            -2000 <= r.1 <= 2000,
    {
        let mut q: i128 = self.start_exponent(b);
        let mut n: u64 = 0;
        proof {
            self.lemma_none_from_start(b as nat, q as int);
        }
        let mantissa: u64 = self.mantissa_of(b);
        let shift: u64 = self.shift_of(b);
        loop
            invariant
                0 < b < self.infinity(),
                mantissa == self.mantissa(b as nat),
                mantissa < 2 * self.hidden(),
                shift == self.shift(b as nat),
                self.is_floor(b as nat, n as nat, q as int),
                self.none_from(b as nat, q as int),
                n <= 8 * self.hidden(),
                -2000 <= q <= 2000,
            decreases q + self.half_unit(),
        {
            proof {
                self.lemma_none_from_bound(b as nat, q as int);
                self.lemma_floor_next(b as nat, n as nat, q as int);
            }
            q = q - 1;
            let ghost start = 10 * n as nat;
            n = 10 * n;
            let value = Self::scaled(2 * mantissa, shift, q);
            let mut next = self.decimal(&Natural::from_u64(n + 1), q);
            while next.at_most(&value)
                invariant
                    start <= 80 * self.hidden(),
                    start <= n < start + 10,
                    next@ == self.numerator(n as nat + 1, q as int),
                    self.numerator(n as nat, q as int) <= value@ < self.numerator(
                        start + 10,
                        q as int,
                    ),
                decreases start + 10 - n,
            {
                n = n + 1;
                proof {
                    self.lemma_numerator_grows(start + 10, n as nat, q as int);
                }
                next = self.decimal(&Natural::from_u64(n + 1), q);
            }
            let here = self.decimal(&Natural::from_u64(n), q);
            let low = !self.at_or_below(b - 1, &here, Ghost(n as nat), q);
            let high = self.at_or_below(b, &next, Ghost(n as nat + 1), q);
            proof {
                self.lemma_around(b as nat, n as nat, q as int);
            }
            if low || high {
                let middle = self.decimal(&Natural::from_u64(2 * n + 1), q);
                let double = Self::scaled(4 * mantissa, shift, q);
                proof {
                    let (p, d) = (power(2, shift as nat), tens(-q));
                    let m = mantissa as nat;
                    assert((4 * m) * p * d == 2 * ((2 * m) * p * d)) by (nonlinear_arith);
                }
                let up = high && (!low || middle.at_most(&double));
                let c: u64 = if up {
                    n + 1
                } else {
                    n
                };
                proof {
                    self.lemma_pick(b as nat, n as nat, q as int, c as nat);
                }
                return (c, q);
            }
            proof {
                self.lemma_floor_small(b as nat, n as nat, q as int);
                assert forall|n2: nat, q2: int| q2 >= q implies !(#[trigger] self.rounds_to(
                    b as nat,
                    n2,
                    q2,
                )) by {
                    if q2 == q && self.rounds_to(b as nat, n2, q2) {
                        assert(n2 < n || n2 == n || n2 > n);
                    }
                }
            }
        }
    }

    /// The text of the number with bit pattern `bits`: the shortest decimal that
    /// reads back, written out in full.
    pub open spec fn text(self, bits: nat) -> Seq<char> {
        let b = bits % self.sign_bit();
        let sign = if bits >= self.sign_bit() {
            seq!['-']
        } else {
            seq![]
        };
        if b > self.infinity() {
            seq!['N', 'a', 'N']
        } else if b == self.infinity() {
            sign + seq!['i', 'n', 'f']
        } else if b == 0 {
            sign + seq!['0']
        } else {
            sign + decimal_text(self.shortest(b).0, self.shortest(b).1)
        }
    }

    /// Write the number with bit pattern `bits`.
    pub fn write(self, bits: u64) -> (s: String)
        requires
            bits < 2 * self.sign_bit(),
        ensures
            s@ == self.text(bits as nat),
    {
        let sign: u64 = self.sign_pattern();
        let b: u64 = bits % sign;
        let infinity: u64 = self.infinity_pattern();
        let mut s = String::new();
        if b > infinity {
            s.push('N');
            s.push('a');
            s.push('N');
            proof {
                assert(s@ =~= self.text(bits as nat));
            }
            return s;
        }
        if bits >= sign {
            s.push('-');
        }
        let ghost start = s@;
        proof {
            assert(start =~= if bits >= sign {
                seq!['-']
            } else {
                seq![]
            });
        }
        if b == infinity {
            s.push('i');
            s.push('n');
            s.push('f');
        } else if b == 0 {
            s.push('0');
        } else {
            let (n, q): (u64, i128) = self.shortest_decimal(b);
            proof {
                self.lemma_shortest_unique(b as nat, n as nat, q as int);
            }
            push_decimal(&mut s, n, q);
        }
        proof {
            assert(s@ =~= self.text(bits as nat));
        }
        s
    }

    pub(crate) proof fn lemma_shortest_from(self, b: nat, q: int)
        requires
            0 < b < self.infinity(),
            self.none_from(b, q + 1),
        ensures
            self.is_shortest(b, self.shortest(b).0, self.shortest(b).1),
        decreases q + self.half_unit() + 1,
    {
        self.lemma_none_from_bound(b, q + 1);
        if self.none_from(b, q) {
            self.lemma_shortest_from(b, q - 1);
        } else {
            let (u, t) = (power(2, self.half_unit()), tens(q));
            let x = self.numerator(1, q);
            let v = self.magnitude(b) * tens(-q);
            lemma_power_positive(2, self.half_unit());
            lemma_power_positive(10, (if q > 0 { q } else { 0 }) as nat);
            assert(x > 0) by (nonlinear_arith)
                requires
                    x == 1 * u * t,
                    u > 0,
                    t > 0,
            ;
            let n = v / x;
            assert(n * u * t <= v < (n + 1) * u * t) by (nonlinear_arith)
                requires
                    x > 0,
                    x == 1 * u * t,
                    n == v / x,
            ;
            self.lemma_around(b, n, q);
            let n2 = choose|n2: nat| self.rounds_to(b, n2, q);
            assert(self.rounds_to(b, n2, q));
            assert(n2 < n || n2 == n || n2 > n);
            let up = self.rounds_to(b, n + 1, q) && (!self.rounds_to(b, n, q) || self.numerator(
                2 * n + 1,
                q,
            ) <= 2 * v);
            let c = if up {
                n + 1
            } else {
                n
            };
            self.lemma_pick(b, n, q, c);
            self.lemma_shortest_unique(b, c, q);
        }
    }

    /// The digits of a finite number.
    spec fn unsigned_text(self, b: nat) -> Seq<char> {
        if b == 0 {
            seq!['0']
        } else {
            decimal_text(self.shortest(b).0, self.shortest(b).1)
        }
    }

    proof fn lemma_unsigned_reads(self, b: nat)
        requires
            b < self.infinity(),
        ensures
            ({
                let s = self.unsigned_text(b);
                &&& s.len() > 0
                &&& is_digit(s[0])
                &&& is_digit(s.last())
                &&& read_decimal(s) is Some
                &&& self.nearest((read_decimal(s)->0).0, (read_decimal(s)->0).1) == b
            }),
    {
        if b == 0 {
            self.lemma_zero(0);
            self.lemma_nearest_unique(0, 0, 0);
            lemma_decimal_reads(0, 0);
            assert(decimal_text(0, 0) =~= self.unsigned_text(b));
            assert(0 * power(10, 0) == 0);
        } else {
            let (n, q) = self.shortest(b);
            let e = self.vast() as int;
            self.lemma_vast(1, e);
            if self.rounds_down_to(b, 1, e) {
                self.lemma_down_grows(b, (self.infinity() - 1) as nat, 1, e);
            }
            self.lemma_none_from_start(b, e);
            self.lemma_shortest_from(b, e - 1);
            lemma_decimal_reads(n, q);
            assert(self.rounds_to(b, n, q));
            if q >= 0 {
                let (u, t) = (power(2, self.half_unit()), power(10, q as nat));
                assert(power(10, 0) == 1);
                assert((n * t) * u * 1 == n * u * t) by (nonlinear_arith);
                assert(self.rounds_to(b, n * t, 0));
                self.lemma_nearest_unique(b, n * t, 0);
            } else {
                self.lemma_nearest_unique(b, n, q);
            }
        }
    }

    /// The text of a finite number reads back as the number.
    pub proof fn lemma_text_reads_back(self, bits: nat)
        requires
            self.finite(bits),
        ensures
            self.reading(self.text(bits)) == Reading::Bits(bits as u64),
    {
        let s = self.text(bits);
        let b = bits % self.sign_bit();
        let body = self.unsigned_text(b);
        self.lemma_unsigned_reads(b);
        let c = body[0];
        assert(lower(c) == c);
        assert(!names_no_number(body)) by {
            if spells(body, seq!['i', 'n', 'f']) || spells(
                body,
                seq!['i', 'n', 'f', 'i', 'n', 'i', 't', 'y'],
            ) || spells(body, seq!['n', 'a', 'n']) {
                assert(lower(body[0]) == 'i' || lower(body[0]) == 'n');
            }
        }
        let sign = self.sign_bit();
        assert(bits == if bits >= sign {
            sign + b
        } else {
            b
        }) by (nonlinear_arith)
            requires
                bits < 2 * sign,
                b == bits % sign,
                sign > 0,
        ;
        if bits >= sign {
            assert(s =~= seq!['-'] + body);
            assert(s.drop_first() =~= body);
            assert(s.last() == body.last());
        } else {
            assert(s =~= body);
        }
        assert(!is_space(s[0]) && !is_space(s.last()));
        assert(trim(s) == s);
    }
}

} // verus!
