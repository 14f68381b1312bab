//! Register words as rows of bits, lowest bit first.

use vstd::arithmetic::div_mod::lemma_div_denominator;
use vstd::prelude::*;

use crate::natural::{lemma_power_positive, power};

verus! {

/// Bit `i` of a word, bit 0 being the lowest.
pub open spec fn word_bit(w: u16, i: nat) -> bool {
    (w as nat / power(2, i)) % 2 == 1
}

/// The bits of words: register `k` occupies bits `16 * k` to `16 * k + 15`.
pub open spec fn bits_of(words: Seq<u16>) -> Seq<bool> {
    Seq::new(16 * words.len(), |i: int| word_bit(words[i / 16], (i % 16) as nat))
}

/// True where a row has a bit and it is set.
pub open spec fn bit_set(bits: Seq<bool>, i: int) -> bool {
    0 <= i < bits.len() && bits[i]
}

/// The number that the `n` bits from `base` on make up.
pub open spec fn bits_value(bits: Seq<bool>, base: int, n: nat) -> nat
    decreases n,
{
    if n == 0 {
        0
    } else {
        bits_value(bits, base, (n - 1) as nat) + if bit_set(bits, base + n - 1) {
            power(2, (n - 1) as nat)
        } else {
            0
        }
    }
}

/// The `n` words that a row of bits makes up; missing bits are clear.
pub open spec fn words_of(bits: Seq<bool>, n: nat) -> Seq<u16> {
    Seq::new(n, |k: int| bits_value(bits, 16 * k, 16) as u16)
}

proof fn lemma_bits_value_bound(bits: Seq<bool>, base: int, n: nat)
    ensures
        bits_value(bits, base, n) < power(2, n),
    decreases n,
{
    if n > 0 {
        lemma_bits_value_bound(bits, base, (n - 1) as nat);
        assert(power(2, n) == power(2, (n - 1) as nat) * 2);
    }
}

proof fn lemma_sixteen()
    ensures
        power(2, 16) == 0x1_0000,
{
    reveal_with_fuel(power, 17);
    assert(power(2, 16) == 0x1_0000);
}

/// The bits of words.
pub fn words_to_bits(words: &[u16]) -> (bits: Vec<bool>)
    ensures
        bits@ == bits_of(words@),
{
    let mut bits: Vec<bool> = Vec::new();
    let mut k: usize = 0;
    while k < words.len()
        invariant
            k <= words@.len(),
            bits@ == bits_of(words@).take(16 * k as int),
        decreases words@.len() - k,
    {
        let mut v: u16 = words[k];
        let mut i: usize = 0;
        proof {
            assert(power(2, 0) == 1);
        }
        while i < 16
            invariant
                i <= 16,
                k < words@.len(),
                v == words@[k as int] as nat / power(2, i as nat),
                bits@ == bits_of(words@).take(16 * k + i),
            decreases 16 - i,
        {
            bits.push(v % 2 == 1);
            proof {
                let w = words@[k as int] as int;
                let ix = 16 * k + i;
                assert(ix / 16 == k && ix % 16 == i);
                assert(bits_of(words@)[ix] == (v % 2 == 1));
                assert(bits@ =~= bits_of(words@).take(ix + 1));
                lemma_power_positive(2, i as nat);
                lemma_div_denominator(w, power(2, i as nat) as int, 2);
                assert(power(2, i as nat + 1) == power(2, i as nat) * 2);
            }
            v = v / 2;
            i = i + 1;
        }
        k = k + 1;
    }
    proof {
        assert(bits@ =~= bits_of(words@));
    }
    bits
}

/// The `n` words that a row of bits makes up.
pub fn bits_to_words(bits: &Vec<bool>, n: usize) -> (words: Vec<u16>)
    ensures
        words@ == words_of(bits@, n as nat),
{
    let len: usize = bits.len();
    let mut words: Vec<u16> = Vec::new();
    let mut k: usize = 0;
    while k < n
        invariant
            k <= n,
            len == bits@.len(),
            words@ == words_of(bits@, n as nat).take(k as int),
        decreases n - k,
    {
        let mut w: u32 = 0;
        let mut weight: u32 = 1;
        let mut i: usize = 0;
        proof {
            assert(power(2, 0) == 1);
            lemma_sixteen();
        }
        while i < 16
            invariant
                i <= 16,
                k < n,
                len == bits@.len(),
                weight == power(2, i as nat),
                weight <= 0x1_0000,
                power(2, 16) == 0x1_0000,
                w == bits_value(bits@, 16 * k as int, i as nat),
                w < weight,
            decreases 16 - i,
        {
            let on = k <= len / 16 && i < len - 16 * k && bits[16 * k + i];
            proof {
                assert(on == bit_set(bits@, 16 * k + i));
                assert(power(2, i as nat + 1) == power(2, i as nat) * 2);
                lemma_weight(i as nat);
            }
            if on {
                w = w + weight;
            }
            weight = weight * 2;
            i = i + 1;
        }
        words.push(w as u16);
        proof {
            assert(words@ =~= words_of(bits@, n as nat).take(k + 1));
        }
        k = k + 1;
    }
    proof {
        assert(words@ =~= words_of(bits@, n as nat));
    }
    words
}

proof fn lemma_weight(i: nat)
    requires
        i < 16,
    ensures
        power(2, i) <= 0x8000,
    decreases 16 - i,
{
    if i == 15 {
        reveal_with_fuel(power, 16);
        assert(power(2, 15) == 0x8000);
    } else {
        lemma_weight(i + 1);
        assert(power(2, i + 1) == power(2, i) * 2);
    }
}

// ---------------------------------------------------------------------------
// Laws
// ---------------------------------------------------------------------------

proof fn lemma_low_bits(words: Seq<u16>, k: int, n: nat)
    requires
        0 <= k < words.len(),
        n <= 16,
    ensures
        bits_value(bits_of(words), 16 * k, n) == words[k] as nat % power(2, n),
    decreases n,
{
    let w = words[k] as nat;
    if n == 0 {
        assert(power(2, 0) == 1);
    } else {
        let m = (n - 1) as nat;
        let p = power(2, m);
        lemma_low_bits(words, k, m);
        lemma_power_positive(2, m);
        assert(power(2, n) == p * 2);
        let ix = 16 * k + m;
        assert(ix / 16 == k && ix % 16 == m);
        assert(bit_set(bits_of(words), ix) == word_bit(words[k], m));
        let q = w / p;
        assert(w % (p * 2) == w % p + if q % 2 == 1 {
            p
        } else {
            0
        }) by (nonlinear_arith)
            requires
                p > 0,
                q == w / p,
        {
            let r = w % p;
            let h = q / 2;
            let b = q % 2;
            assert(w == p * q + r && 0 <= r < p);
            assert(q == 2 * h + b);
            let t = p * b + r;
            assert(w == (p * 2) * h + t);
            assert(0 <= t < p * 2);
            vstd::arithmetic::div_mod::lemma_fundamental_div_mod_converse(
                w as int,
                (p * 2) as int,
                h as int,
                t as int,
            );
        }
    }
}

/// Words survive the way into bits and back.
pub proof fn lemma_words_round_trip(words: Seq<u16>)
    ensures
        words_of(bits_of(words), words.len()) == words,
{
    lemma_sixteen();
    assert forall|k: int| 0 <= k < words.len() implies words_of(bits_of(words), words.len())[k]
        == words[k] by {
        lemma_low_bits(words, k, 16);
        vstd::arithmetic::div_mod::lemma_small_mod(words[k] as nat, 0x1_0000);
    }
    assert(words_of(bits_of(words), words.len()) =~= words);
}

proof fn lemma_value_bit(bits: Seq<bool>, base: int, n: nat, i: nat)
    requires
        i < n,
    ensures
        (bits_value(bits, base, n) / power(2, i)) % 2 == 1 <==> bit_set(bits, base + i),
    decreases n,
{
    let m = (n - 1) as nat;
    let p = power(2, i);
    let low = bits_value(bits, base, m);
    lemma_power_positive(2, i);
    lemma_bits_value_bound(bits, base, m);
    if i == m {
        let top: nat = if bit_set(bits, base + m) {
            1
        } else {
            0
        };
        assert((low + p * top) / p == top) by (nonlinear_arith)
            requires
                low < p,
                p > 0,
                top <= 1,
        ;
    } else {
        lemma_value_bit(bits, base, m, i);
        if bit_set(bits, base + m) {
            let d = (m - i) as nat;
            crate::natural::lemma_power_add(2, i, d);
            let q = power(2, (d - 1) as nat);
            assert(power(2, d) == q * 2);
            let a = low / p;
            assert((low + p * (q * 2)) / p == a + 2 * q) by (nonlinear_arith)
                requires
                    p > 0,
                    a == low / p,
            {
                let r = low % p;
                assert(low == p * a + r && 0 <= r < p);
                assert(low + p * (q * 2) == p * (a + 2 * q) + r);
                vstd::arithmetic::div_mod::lemma_fundamental_div_mod_converse(
                    (low + p * (q * 2)) as int,
                    p as int,
                    (a + 2 * q) as int,
                    r as int,
                );
            }
        }
    }
}

/// A full row of bits survives the way into words and back.
pub proof fn lemma_bits_round_trip(bits: Seq<bool>, n: nat)
    requires
        bits.len() == 16 * n,
    ensures
        bits_of(words_of(bits, n)) == bits,
{
    lemma_sixteen();
    assert forall|i: int| 0 <= i < bits.len() implies bits_of(words_of(bits, n))[i] == bits[i] by {
        let k = i / 16;
        let j = (i % 16) as nat;
        lemma_bits_value_bound(bits, 16 * k, 16);
        lemma_value_bit(bits, 16 * k, 16, j);
        assert(16 * k + j == i);
    }
    assert(bits_of(words_of(bits, n)) =~= bits);
}

proof fn lemma_shifts(w: u16)
    by (bit_vector)
    ensures
        (w >> 0u16) & 1 == w / 1 % 2,
        (w >> 1u16) & 1 == w / 2 % 2,
        (w >> 2u16) & 1 == w / 4 % 2,
        (w >> 3u16) & 1 == w / 8 % 2,
        (w >> 4u16) & 1 == w / 16 % 2,
        (w >> 5u16) & 1 == w / 32 % 2,
        (w >> 6u16) & 1 == w / 64 % 2,
        (w >> 7u16) & 1 == w / 128 % 2,
        (w >> 8u16) & 1 == w / 256 % 2,
        (w >> 9u16) & 1 == w / 512 % 2,
        (w >> 10u16) & 1 == w / 1024 % 2,
        (w >> 11u16) & 1 == w / 2048 % 2,
        (w >> 12u16) & 1 == w / 4096 % 2,
        (w >> 13u16) & 1 == w / 8192 % 2,
        (w >> 14u16) & 1 == w / 16384 % 2,
        (w >> 15u16) & 1 == w / 32768 % 2,
{
}

/// Bit `j` of register `k` is number `16 * k + j` of the row, bit 0 being the
/// lowest, from words to bits and back.
pub proof fn lemma_bit_place(words: Seq<u16>, bits: Seq<bool>, n: nat, k: int, j: u16)
    requires
        0 <= k,
        j < 16,
    ensures
        bits_of(words).len() == 16 * words.len(),
        words_of(bits, n).len() == n,
        k < words.len() ==> bits_of(words)[16 * k + j] == ((words[k] >> j) & 1 == 1),
        k < n ==> ((words_of(bits, n)[k] >> j) & 1 == 1) == (16 * k + j < bits.len() && bits[16 * k
            + j]),
{
    reveal_with_fuel(power, 17);
    assert(power(2, 0) == 1);
    assert(power(2, 1) == 2);
    assert(power(2, 2) == 4);
    assert(power(2, 3) == 8);
    assert(power(2, 4) == 16);
    assert(power(2, 5) == 32);
    assert(power(2, 6) == 64);
    assert(power(2, 7) == 128);
    assert(power(2, 8) == 256);
    assert(power(2, 9) == 512);
    assert(power(2, 10) == 1024);
    assert(power(2, 11) == 2048);
    assert(power(2, 12) == 4096);
    assert(power(2, 13) == 8192);
    assert(power(2, 14) == 16384);
    assert(power(2, 15) == 32768);
    assert(j == 0 || j == 1 || j == 2 || j == 3 || j == 4 || j == 5 || j == 6 || j == 7 || j == 8 || j == 9 || j == 10 || j == 11 || j == 12 || j == 13 || j == 14 || j == 15);
    if k < words.len() {
        lemma_shifts(words[k]);
        assert((16 * k + j) / 16 == k && (16 * k + j) % 16 == j as int);
    }
    if k < n {
        let w = words_of(bits, n)[k];
        lemma_shifts(w);
        lemma_bits_value_bound(bits, 16 * k, 16);
        lemma_sixteen();
        lemma_value_bit(bits, 16 * k, 16, j as nat);
    }
}

} // verus!
