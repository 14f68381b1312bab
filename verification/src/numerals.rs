//! What numerals say, character by character.

use vstd::prelude::*;

use crate::text::{
    all_digits, dec, dec_int, dec_padded, digit_value, digits_value, hex2, hex4, hex_bytes, hex_char,
    hex_words, int_in, is_digit, is_space, lemma_dec_int_reads_back, lemma_dec_reads_back, read_int,
    trim, trim_end, trim_start, zeros,
};

verus! {

/// The number that a row of decimal digits spells, the first being the highest.
pub open spec fn spelled(digits: Seq<char>) -> int {
    digits.fold_left(0int, |n: int, c: char| 10 * n + (c as int - '0' as int))
}

/// True for rows of the digits `0` to `9`.
pub open spec fn digit_row(digits: Seq<char>) -> bool {
    forall|i: int| 0 <= i < digits.len() ==> '0' <= #[trigger] digits[i] <= '9'
}

/// True for rows of white space.
pub open spec fn blank(s: Seq<char>) -> bool {
    forall|i: int| 0 <= i < s.len() ==> is_space(#[trigger] s[i])
}

pub(crate) proof fn lemma_spelled(digits: Seq<char>)
    requires
        digit_row(digits),
    ensures
        spelled(digits) == digits_value(digits),
        all_digits(digits),
    decreases digits.len(),
{
    if digits.len() > 0 {
        let init = digits.drop_last();
        assert(digit_row(init)) by {
            assert forall|i: int| 0 <= i < init.len() implies '0' <= #[trigger] init[i] <= '9' by {
                assert(init[i] == digits[i]);
            }
        }
        lemma_spelled(init);
        assert('0' <= digits[digits.len() - 1] <= '9');
        assert(digit_value(digits.last()) == digits.last() as int - '0' as int);
    }
    assert forall|i: int| 0 <= i < digits.len() implies is_digit(#[trigger] digits[i]) by {
        assert('0' <= digits[i] <= '9');
    }
}

// ---------------------------------------------------------------------------
// Writing
// ---------------------------------------------------------------------------

/// A numeral is made of digits, spells its number, and starts with no zero but
/// where it is `0`; a negative number has a `-` before it.
pub proof fn lemma_numeral(n: nat)
    ensures
        dec(n).len() > 0,
        digit_row(dec(n)),
        spelled(dec(n)) == n,
        dec(n)[0] == '0' ==> n == 0,
        dec_int(n as int) == dec(n),
        n > 0 ==> dec_int(-n) == seq!['-'] + dec(n),
    decreases n,
{
    lemma_dec_reads_back(n);
    assert(digit_row(dec(n))) by {
        assert forall|i: int| 0 <= i < dec(n).len() implies '0' <= #[trigger] dec(n)[i] <= '9' by {
            assert(is_digit(dec(n)[i]));
        }
    }
    lemma_spelled(dec(n));
    if n >= 10 {
        lemma_numeral(n / 10);
        assert(dec(n)[0] == dec(n / 10)[0]);
    }
}

/// Two integers with the same numeral are the same.
pub proof fn lemma_numerals_differ(v: int, w: int)
    requires
        dec_int(v) == dec_int(w),
    ensures
        v == w,
{
    let min = if v < w {
        v
    } else {
        w
    };
    let max = if v < w {
        w
    } else {
        v
    };
    let low = if min < 0 {
        min
    } else {
        -1
    };
    lemma_dec_int_reads_back(v, low, max);
    lemma_dec_int_reads_back(w, low, max);
}

/// A padded numeral spells its number in at least as many digits as asked for,
/// the missing ones zeros in front.
pub proof fn lemma_padded_numeral(n: nat, width: nat)
    ensures
        ({
            let s = dec_padded(n, width);
            &&& s.len() == if dec(n).len() < width {
                width
            } else {
                dec(n).len()
            }
            &&& digit_row(s)
            &&& spelled(s) == n
            &&& s.skip(s.len() - dec(n).len()) == dec(n)
        }),
{
    let s = dec_padded(n, width);
    lemma_numeral(n);
    let k = s.len() - dec(n).len();
    assert(s.skip(k) =~= dec(n));
    assert forall|i: int| 0 <= i < s.len() implies '0' <= #[trigger] s[i] <= '9' by {
        if i >= k {
            assert(s[i] == dec(n)[i - k]);
        }
    }
    lemma_leading_zeros(k as nat, dec(n));
    assert(s =~= zeros(k as nat) + dec(n));
}

proof fn lemma_leading_zeros(k: nat, digits: Seq<char>)
    ensures
        spelled(zeros(k) + digits) == spelled(digits),
    decreases k + digits.len(),
{
    let s = zeros(k) + digits;
    if digits.len() > 0 {
        lemma_leading_zeros(k, digits.drop_last());
        assert(s.drop_last() =~= zeros(k) + digits.drop_last());
        assert(s.last() == digits.last());
    } else if k > 0 {
        lemma_leading_zeros((k - 1) as nat, digits);
        assert(s.drop_last() =~= zeros((k - 1) as nat) + digits);
        assert(s.last() == '0');
    } else {
        assert(s =~= digits);
    }
}

/// A byte is written as the digit of its high half, then that of its low half.
pub proof fn lemma_hex_byte(b: u8)
    ensures
        ({
            let digits = seq![
                '0', '1', '2', '3', '4', '5', '6', '7', '8', '9', 'A', 'B', 'C', 'D', 'E', 'F',
            ];
            hex2(b) == seq![digits[b as int / 16], digits[b as int % 16]]
        }),
{
    let digits = seq![
        '0', '1', '2', '3', '4', '5', '6', '7', '8', '9', 'A', 'B', 'C', 'D', 'E', 'F',
    ];
    lemma_hex_digit((b / 16) as nat);
    lemma_hex_digit((b % 16) as nat);
}

proof fn lemma_hex_digit(d: nat)
    requires
        d < 16,
    ensures
        hex_char(d) == seq![
            '0', '1', '2', '3', '4', '5', '6', '7', '8', '9', 'A', 'B', 'C', 'D', 'E', 'F',
        ][d as int],
{
    assert(d == 0 || d == 1 || d == 2 || d == 3 || d == 4 || d == 5 || d == 6 || d == 7 || d == 8
        || d == 9 || d == 10 || d == 11 || d == 12 || d == 13 || d == 14 || d == 15);
}

/// A word is written as its high byte, then its low byte.
pub proof fn lemma_hex_word(w: u16)
    ensures
        hex4(w) == hex2((w / 256) as u8) + hex2((w % 256) as u8),
{
}

/// Bytes are written in their order, two digits each with a space between.
pub proof fn lemma_hex_row(bytes: Seq<u8>, i: int)
    requires
        0 <= i < bytes.len(),
    ensures
        hex_bytes(bytes).len() == 3 * bytes.len() - 1,
        hex_bytes(bytes).subrange(3 * i, 3 * i + 2) == hex2(bytes[i]),
        i + 1 < bytes.len() ==> hex_bytes(bytes)[3 * i + 2] == ' ',
    decreases bytes.len(),
{
    let s = hex_bytes(bytes);
    if bytes.len() == 1 {
        assert(s.subrange(0, 2) =~= hex2(bytes[0]));
    } else {
        let init = bytes.drop_last();
        let n = init.len() as int;
        if i < n {
            lemma_hex_row(init, i);
            assert(s.subrange(3 * i, 3 * i + 2) =~= hex_bytes(init).subrange(3 * i, 3 * i + 2));
        } else {
            lemma_hex_row(init, 0);
            assert(s.subrange(3 * i, 3 * i + 2) =~= hex2(bytes[i]));
        }
    }
}

/// Words are written in their order, four digits each with a space between.
pub proof fn lemma_hex_words_row(words: Seq<u16>, i: int)
    requires
        0 <= i < words.len(),
    ensures
        hex_words(words).len() == 5 * words.len() - 1,
        hex_words(words).subrange(5 * i, 5 * i + 4) == hex4(words[i]),
        i + 1 < words.len() ==> hex_words(words)[5 * i + 4] == ' ',
    decreases words.len(),
{
    let s = hex_words(words);
    if words.len() == 1 {
        assert(s.subrange(0, 4) =~= hex4(words[0]));
    } else {
        let init = words.drop_last();
        let n = init.len() as int;
        if i < n {
            lemma_hex_words_row(init, i);
            assert(s.subrange(5 * i, 5 * i + 4) =~= hex_words(init).subrange(5 * i, 5 * i + 4));
        } else {
            lemma_hex_words_row(init, 0);
            assert(s.subrange(5 * i, 5 * i + 4) =~= hex4(words[i]));
        }
    }
}

// ---------------------------------------------------------------------------
// Reading
// ---------------------------------------------------------------------------

/// White space is what Unicode calls so.
pub proof fn lemma_white_space(c: char)
    ensures
        is_space(c) <==> {
            let u = c as int;
            ||| u == 0x20
            ||| u == 0x09
            ||| u == 0x0A
            ||| u == 0x0B
            ||| u == 0x0C
            ||| u == 0x0D
            ||| u == 0x85
            ||| u == 0xA0
            ||| u == 0x1680
            ||| 0x2000 <= u < 0x200B
            ||| u == 0x2028
            ||| u == 0x2029
            ||| u == 0x202F
            ||| u == 0x205F
            ||| u == 0x3000
        },
{
}

proof fn lemma_trim_start(before: Seq<char>, s: Seq<char>)
    requires
        blank(before),
        s.len() > 0 ==> !is_space(s[0]),
    ensures
        trim_start(before + s) == s,
    decreases before.len(),
{
    let all = before + s;
    if before.len() > 0 {
        let rest = before.drop_first();
        assert forall|i: int| 0 <= i < rest.len() implies is_space(#[trigger] rest[i]) by {
            assert(rest[i] == before[i + 1]);
        }
        assert(is_space(before[0]));
        lemma_trim_start(rest, s);
        assert(all.drop_first() =~= rest + s);
    } else {
        assert(all =~= s);
    }
}

proof fn lemma_trim_end(s: Seq<char>, after: Seq<char>)
    requires
        blank(after),
        s.len() > 0 ==> !is_space(s.last()),
    ensures
        trim_end(s + after) == s,
    decreases after.len(),
{
    let all = s + after;
    if after.len() > 0 {
        let rest = after.drop_last();
        assert forall|i: int| 0 <= i < rest.len() implies is_space(#[trigger] rest[i]) by {
            assert(rest[i] == after[i]);
        }
        assert(is_space(after[after.len() - 1]));
        lemma_trim_end(s, rest);
        assert(all.drop_last() =~= s + rest);
    } else {
        assert(all =~= s);
    }
}

/// White space around a text is left out.
pub proof fn lemma_trimmed(before: Seq<char>, s: Seq<char>, after: Seq<char>)
    requires
        blank(before),
        blank(after),
        s.len() > 0,
        !is_space(s[0]),
        !is_space(s.last()),
    ensures
        trim(before + s + after) == s,
{
    lemma_trim_start(before, s + after);
    assert(before + s + after =~= before + (s + after));
    lemma_trim_end(s, after);
}

/// An integer is spelled by digits, with a sign before them or none and white
/// space around them or none. It is taken if it lies in the range; a `-` is
/// taken only where the range has negative numbers.
pub proof fn lemma_integer_spelled(
    before: Seq<char>,
    sign: Seq<char>,
    digits: Seq<char>,
    after: Seq<char>,
    min: int,
    max: int,
)
    requires
        blank(before),
        blank(after),
        sign == Seq::<char>::empty() || sign == seq!['+'] || sign == seq!['-'],
        digits.len() > 0,
        digit_row(digits),
    ensures
        int_in(before + sign + digits + after, min, max) == {
            let v = if sign == seq!['-'] {
                -spelled(digits)
            } else {
                spelled(digits)
            };
            if min <= v <= max && (min < 0 || sign != seq!['-']) {
                Some(v)
            } else {
                None
            }
        },
{
    let s = sign + digits;
    lemma_spelled(digits);
    assert('0' <= digits[0] <= '9' && '0' <= digits[digits.len() - 1] <= '9');
    assert(s.last() == digits.last());
    if sign.len() == 0 {
        assert(s =~= digits);
    } else {
        assert(sign.len() == 1);
        assert(s[0] == sign[0]);
        assert(s.drop_first() =~= digits);
    }
    assert(sign == seq!['-'] <==> s[0] == '-');
    lemma_trimmed(before, s, after);
    assert(before + sign + digits + after =~= before + s + after);
    if s[0] == '-' && min >= 0 {
        assert(!is_digit(s[0]));
    }
}

pub(crate) proof fn lemma_trim_start_parts(s: Seq<char>) -> (before: Seq<char>)
    ensures
        blank(before),
        s == before + trim_start(s),
    decreases s.len(),
{
    if s.len() > 0 && is_space(s[0]) {
        let rest = lemma_trim_start_parts(s.drop_first());
        let before = seq![s[0]] + rest;
        assert(s =~= seq![s[0]] + s.drop_first());
        assert(before + trim_start(s) =~= seq![s[0]] + (rest + trim_start(s)));
        before
    } else {
        assert(s =~= Seq::<char>::empty() + trim_start(s));
        Seq::empty()
    }
}

pub(crate) proof fn lemma_trim_end_parts(s: Seq<char>) -> (after: Seq<char>)
    ensures
        blank(after),
        s == trim_end(s) + after,
    decreases s.len(),
{
    if s.len() > 0 && is_space(s.last()) {
        let rest = lemma_trim_end_parts(s.drop_last());
        let after = rest + seq![s.last()];
        assert(s =~= s.drop_last() + seq![s.last()]);
        assert(trim_end(s) + after =~= (trim_end(s) + rest) + seq![s.last()]);
        after
    } else {
        assert(s =~= trim_end(s) + Seq::<char>::empty());
        Seq::empty()
    }
}

/// What is taken for an integer spells it: white space or none, a sign or none,
/// digits, white space or none.
pub proof fn lemma_integer_spells(text: Seq<char>, min: int, max: int) -> (parts: (
    Seq<char>,
    Seq<char>,
    Seq<char>,
    Seq<char>,
))
    requires
        int_in(text, min, max) is Some,
    ensures
        text == parts.0 + parts.1 + parts.2 + parts.3,
        blank(parts.0),
        parts.1 == Seq::<char>::empty() || parts.1 == seq!['+'] || parts.1 == seq!['-'],
        parts.2.len() > 0,
        digit_row(parts.2),
        blank(parts.3),
{
    let before = lemma_trim_start_parts(text);
    let after = lemma_trim_end_parts(trim_start(text));
    let s = trim(text);
    let signed = s[0] == '+' || (min < 0 && s[0] == '-');
    let sign = if signed {
        seq![s[0]]
    } else {
        seq![]
    };
    let digits = if signed {
        s.drop_first()
    } else {
        s
    };
    assert(read_int(s, min < 0) is Some);
    assert(all_digits(digits));
    assert forall|i: int| 0 <= i < digits.len() implies '0' <= #[trigger] digits[i] <= '9' by {
        assert(is_digit(digits[i]));
    }
    assert(text =~= before + sign + digits + after);
    (before, sign, digits, after)
}

} // verus!
