//! Lists of register words in hexadecimal.

use vstd::prelude::*;

use crate::model::value_type::outcome;
use crate::text::{
    chars_of, hex4, hex_char, hex_digit_value, hex_value, hex_words, is_hex_digit, is_space,
    is_whitespace,
};

verus! {

// ---------------------------------------------------------------------------
// Model
// ---------------------------------------------------------------------------

/// The length of the run of characters that `s` starts with, up to white space.
pub open spec fn token_len(s: Seq<char>) -> nat
    decreases s.len(),
{
    if s.len() == 0 || is_space(s[0]) {
        0
    } else {
        1 + token_len(s.skip(1))
    }
}

/// The pieces of `s` between white space.
pub open spec fn tokens(s: Seq<char>) -> Seq<Seq<char>>
    decreases s.len(),
{
    if s.len() == 0 {
        seq![]
    } else if is_space(s[0]) {
        tokens(s.skip(1))
    } else {
        let n = token_len(s) as int;
        seq![s.take(n)] + if 0 < n <= s.len() {
            tokens(s.skip(n))
        } else {
            seq![]
        }
    }
}

/// The number that a run of hexadecimal digits denotes.
pub open spec fn hex_number(s: Seq<char>) -> nat
    decreases s.len(),
{
    if s.len() == 0 {
        0
    } else {
        hex_number(s.drop_last()) * 16 + hex_value(s.last())
    }
}

/// True when all of `s` are hexadecimal digits.
pub open spec fn all_hex(s: Seq<char>) -> bool {
    forall|i: int| 0 <= i < s.len() ==> is_hex_digit(#[trigger] s[i])
}

/// `t` without a `0x` prefix, then without a plus sign.
pub open spec fn hex_body(t: Seq<char>) -> Seq<char> {
    let b = if t.len() >= 2 && t[0] == '0' && (t[1] == 'x' || t[1] == 'X') {
        t.skip(2)
    } else {
        t
    };
    if b.len() > 0 && b[0] == '+' {
        b.skip(1)
    } else {
        b
    }
}

/// The word that a token spells; `None` when it spells none.
pub open spec fn token_word(t: Seq<char>) -> Option<u16> {
    let b = hex_body(t);
    if b.len() > 0 && all_hex(b) && hex_number(b) <= 0xFFFF {
        Some(hex_number(b) as u16)
    } else {
        None
    }
}

/// The words that tokens spell, or the message about the first that spells none.
pub open spec fn token_words(ts: Seq<Seq<char>>) -> Result<Seq<u16>, Seq<char>>
    decreases ts.len(),
{
    if ts.len() == 0 {
        Ok(seq![])
    } else {
        match token_words(ts.drop_last()) {
            Err(message) => Err(message),
            Ok(words) => match token_word(ts.last()) {
                Some(w) => Ok(words.push(w)),
                None => Err("无效的十六进制 '"@ + ts.last() + seq!['\'']),
            },
        }
    }
}

/// The words that a list spells, or what is wrong with it.
pub open spec fn listed_words(text: Seq<char>) -> Result<Seq<u16>, Seq<char>> {
    if tokens(text).len() == 0 {
        Err("请输入十六进制寄存器值"@)
    } else {
        token_words(tokens(text))
    }
}

// ---------------------------------------------------------------------------
// Parsing
// ---------------------------------------------------------------------------

proof fn lemma_token_len(s: Seq<char>, n: nat)
    requires
        n <= s.len(),
        forall|i: int| 0 <= i < n ==> !is_space(#[trigger] s[i]),
        n == s.len() || is_space(s[n as int]),
    ensures
        token_len(s) == n,
    decreases n,
{
    if n > 0 {
        let t = s.skip(1);
        assert forall|i: int| 0 <= i < n - 1 implies !is_space(#[trigger] t[i]) by {
            assert(t[i] == s[i + 1]);
        }
        lemma_token_len(t, (n - 1) as nat);
    }
}

proof fn lemma_hex_prefix(s: Seq<char>, k: int)
    requires
        0 <= k <= s.len(),
    ensures
        hex_number(s.take(k)) <= hex_number(s),
    decreases s.len() - k,
{
    if k < s.len() {
        lemma_hex_prefix(s, k + 1);
        assert(s.take(k + 1).drop_last() =~= s.take(k));
    } else {
        assert(s.take(k) =~= s);
    }
}

/// The word that the token `chars[from..to]` spells.
#[verifier::rlimit(40)]
fn read_token(chars: &Vec<char>, from: usize, to: usize) -> (w: Option<u16>)
    requires
        from <= to <= chars@.len(),
    ensures
        w == token_word(chars@.subrange(from as int, to as int)),
{
    let ghost t = chars@.subrange(from as int, to as int);
    let mut start: usize = from;
    if to - from >= 2 && chars[from] == '0' && (chars[from + 1] == 'x' || chars[from + 1] == 'X') {
        start = from + 2;
    }
    if start < to && chars[start] == '+' {
        start = start + 1;
    }
    let ghost b = chars@.subrange(start as int, to as int);
    proof {
        assert(b =~= hex_body(t));
        assert(b.take(0) =~= Seq::<char>::empty());
    }
    if start == to {
        return None;
    }
    let mut value: u32 = 0;
    let mut i: usize = start;
    #[verifier::loop_isolation(false)]
    while i < to
        invariant
            start <= i <= to <= chars@.len(),
            b == chars@.subrange(start as int, to as int),
            value <= 0xFFFF,
            value == hex_number(b.take(i - start)),
            forall|k: int| 0 <= k < i - start ==> is_hex_digit(#[trigger] b[k]),
        decreases to - i,
    {
        proof {
            assert(b[i - start] == chars@[i as int]);
            assert(b.take(i - start + 1).drop_last() =~= b.take(i - start));
            assert(b.take(i - start + 1).last() == chars@[i as int]);
            lemma_hex_prefix(b, i - start + 1);
        }
        match hex_digit_value(chars[i]) {
            Some(d) => {
                value = value * 16 + d as u32;
            },
            None => {
                return None;
            },
        }
        if value > 0xFFFF {
            return None;
        }
        i = i + 1;
    }
    proof {
        assert(b.take(b.len() as int) =~= b);
    }
    Some(value as u16)
}

/// The message about a token that spells no word.
fn token_message(chars: &Vec<char>, from: usize, to: usize) -> (s: String)
    requires
        from <= to <= chars@.len(),
    ensures
        s@ == "无效的十六进制 '"@ + chars@.subrange(from as int, to as int) + seq!['\''],
{
    let mut s = "无效的十六进制 '".to_string();
    let ghost head = s@;
    let mut i: usize = from;
    proof {
        assert(head + chars@.subrange(from as int, from as int) =~= head);
    }
    while i < to
        invariant
            from <= i <= to <= chars@.len(),
            s@ == head + chars@.subrange(from as int, i as int),
        decreases to - i,
    {
        s.push(chars[i]);
        proof {
            assert(s@ =~= head + chars@.subrange(from as int, i + 1));
        }
        i = i + 1;
    }
    s.push('\'');
    proof {
        assert(s@ =~= head + chars@.subrange(from as int, to as int) + seq!['\'']);
    }
    s
}

proof fn lemma_error_stays(ts: Seq<Seq<char>>, more: Seq<Seq<char>>)
    requires
        token_words(ts) is Err,
    ensures
        token_words(ts + more) == token_words(ts),
    decreases more.len(),
{
    let all = ts + more;
    if more.len() == 0 {
        assert(all =~= ts);
    } else {
        lemma_error_stays(ts, more.drop_last());
        assert(all.drop_last() =~= ts + more.drop_last());
    }
}

/// Parse a space-separated list of 16-bit hex values such as `"1234 5678"`
/// (optional `0x` prefixes are accepted) into register words.
pub fn parse_hex_words(text: &str) -> (r: Result<Vec<u16>, String>)
    ensures
        outcome(r) == listed_words(text@),
{
    let chars = chars_of(text);
    let n: usize = chars.len();
    let mut words: Vec<u16> = Vec::new();
    let ghost mut seen: Seq<Seq<char>> = seq![];
    let mut i: usize = 0;
    proof {
        assert(chars@.skip(0) =~= chars@);
        assert(seen + tokens(chars@) =~= tokens(chars@));
    }
    #[verifier::loop_isolation(false)]
    while i < n
        invariant
            i <= n == chars@.len(),
            chars@ == text@,
            tokens(text@) == seen + tokens(chars@.skip(i as int)),
            token_words(seen) == Ok::<Seq<u16>, Seq<char>>(words@),
            seen.len() == words@.len(),
        decreases n - i,
    {
        let ghost rest = chars@.skip(i as int);
        proof {
            assert(rest.skip(1) =~= chars@.skip(i + 1));
        }
        if is_whitespace(chars[i]) {
            i = i + 1;
        } else {
            let mut end: usize = i + 1;
            while end < n && !is_whitespace(chars[end])
                invariant
                    i < end <= n == chars@.len(),
                    forall|k: int| i <= k < end ==> !is_space(#[trigger] chars@[k]),
                decreases n - end,
            {
                end = end + 1;
            }
            let ghost t = chars@.subrange(i as int, end as int);
            let ghost tail = tokens(chars@.skip(end as int));
            proof {
                assert forall|k: int| 0 <= k < end - i implies !is_space(#[trigger] rest[k]) by {
                    assert(rest[k] == chars@[i + k]);
                }
                lemma_token_len(rest, (end - i) as nat);
                assert(rest.take(end - i) =~= t);
                assert(rest.skip(end - i) =~= chars@.skip(end as int));
                assert(seen + (seq![t] + tail) =~= seen.push(t) + tail);
                assert(seen.push(t).drop_last() =~= seen);
            }
            match read_token(&chars, i, end) {
                Some(w) => {
                    words.push(w);
                },
                None => {
                    proof {
                        lemma_error_stays(seen.push(t), tail);
                    }
                    return Err(token_message(&chars, i, end));
                },
            }
            proof {
                seen = seen.push(t);
            }
            i = end;
        }
    }
    proof {
        assert(seen + tokens(chars@.skip(n as int)) =~= seen);
    }
    if words.len() == 0 {
        return Err("请输入十六进制寄存器值".to_string());
    }
    Ok(words)
}

// ---------------------------------------------------------------------------
// Laws
// ---------------------------------------------------------------------------

proof fn lemma_tokens_concat(a: Seq<char>, b: Seq<char>)
    requires
        b.len() > 0 ==> is_space(b[0]),
    ensures
        tokens(a + b) == tokens(a) + tokens(b),
    decreases a.len(),
{
    let s = a + b;
    if a.len() == 0 {
        assert(s =~= b);
        assert(tokens(a) + tokens(b) =~= tokens(b));
    } else if is_space(a[0]) {
        assert(s.skip(1) =~= a.skip(1) + b);
        lemma_tokens_concat(a.skip(1), b);
    } else {
        lemma_token_facts(a);
        let n = token_len(a);
        assert forall|i: int| 0 <= i < n implies !is_space(#[trigger] s[i]) by {
            assert(s[i] == a[i]);
        }
        assert(n == s.len() || is_space(s[n as int])) by {
            if n < a.len() {
                assert(s[n as int] == a[n as int]);
            }
        }
        lemma_token_len(s, n);
        assert(s.take(n as int) =~= a.take(n as int));
        assert(s.skip(n as int) =~= a.skip(n as int) + b);
        lemma_tokens_concat(a.skip(n as int), b);
        let t = seq![a.take(n as int)];
        assert(t + (tokens(a.skip(n as int)) + tokens(b)) =~= (t + tokens(a.skip(n as int)))
            + tokens(b));
    }
}

proof fn lemma_token_facts(s: Seq<char>)
    ensures
        token_len(s) <= s.len(),
        forall|i: int| 0 <= i < token_len(s) ==> !is_space(#[trigger] s[i]),
        token_len(s) == s.len() || is_space(s[token_len(s) as int]),
        s.len() > 0 && !is_space(s[0]) ==> token_len(s) > 0,
    decreases s.len(),
{
    if s.len() > 0 && !is_space(s[0]) {
        let t = s.skip(1);
        lemma_token_facts(t);
        assert forall|i: int| 0 <= i < token_len(s) implies !is_space(#[trigger] s[i]) by {
            if i > 0 {
                assert(s[i] == t[i - 1]);
            }
        }
        if token_len(t) < t.len() {
            assert(s[token_len(s) as int] == t[token_len(t) as int]);
        }
    }
}

proof fn lemma_word_token(w: u16)
    ensures
        tokens(hex4(w)) == seq![hex4(w)],
        token_word(hex4(w)) == Some(w),
{
    let s = hex4(w);
    let (a, b) = ((w / 256) as u8, (w % 256) as u8);
    let d = seq![(a / 16) as nat, (a % 16) as nat, (b / 16) as nat, (b % 16) as nat];
    assert forall|i: int| 0 <= i < 4 implies is_hex_digit(#[trigger] s[i]) && hex_value(s[i])
        == d[i] && !is_space(s[i]) by {
        assert(s[i] == hex_char(d[i]));
    }
    lemma_token_len(s, 4);
    assert(s.take(4) =~= s);
    assert(s.skip(4) =~= Seq::<char>::empty());
    assert(tokens(s.skip(4)) =~= Seq::<Seq<char>>::empty());
    assert(tokens(s) =~= seq![s]);
    assert(is_hex_digit(s[1]) && is_hex_digit(s[0]));
    assert(hex_body(s) == s);
    reveal_with_fuel(hex_number, 5);
    let (s3, s2, s1) = (s.drop_last(), s.drop_last().drop_last(), s.drop_last().drop_last().drop_last());
    assert(s.last() == s[3] && s3.last() == s[2] && s2.last() == s[1] && s1.last() == s[0]);
    assert(hex_number(s1) == d[0]);
    assert(hex_number(s2) == d[0] * 16 + d[1]);
    assert(hex_number(s3) == (d[0] * 16 + d[1]) * 16 + d[2]);
    assert(hex_number(s) == w);
}

proof fn lemma_rendered_tokens(words: Seq<u16>)
    ensures
        tokens(hex_words(words)).len() == words.len(),
        token_words(tokens(hex_words(words))) == Ok::<Seq<u16>, Seq<char>>(words),
    decreases words.len(),
{
    if words.len() == 0 {
        assert(words =~= Seq::<u16>::empty());
    } else {
        let init = words.drop_last();
        let w = words.last();
        lemma_word_token(w);
        if words.len() == 1 {
            let ts = seq![hex4(w)];
            assert(ts.drop_last() =~= Seq::<Seq<char>>::empty());
            assert(token_words(ts.drop_last()) == Ok::<Seq<u16>, Seq<char>>(Seq::<u16>::empty()));
            assert(Seq::<u16>::empty().push(w) =~= words);
        } else {
            lemma_rendered_tokens(init);
            let blank = seq![' '];
            let tail = blank + hex4(w);
            assert(tail.skip(1) =~= hex4(w));
            assert(tokens(tail) == seq![hex4(w)]);
            lemma_tokens_concat(hex_words(init), tail);
            assert(hex_words(words) =~= hex_words(init) + tail);
            let ts = tokens(hex_words(words));
            assert(ts.drop_last() =~= tokens(hex_words(init)));
            assert(ts.last() == hex4(w));
            assert(init.push(w) =~= words);
        }
    }
}

/// The list that words are shown as parses to the same words.
pub proof fn lemma_parse_shown(words: Seq<u16>)
    requires
        words.len() > 0,
    ensures
        listed_words(hex_words(words)) == Ok::<Seq<u16>, Seq<char>>(words),
{
    lemma_rendered_tokens(words);
}

/// The number that a row of hexadecimal digits in either case spells, the first
/// being the highest.
pub open spec fn spelled_hex(digits: Seq<char>) -> int {
    digits.fold_left(
        0int,
        |n: int, c: char|
            16 * n + if '0' <= c <= '9' {
                c as int - '0' as int
            } else if 'a' <= c <= 'f' {
                c as int - 'a' as int + 10
            } else {
                c as int - 'A' as int + 10
            },
    )
}

proof fn lemma_spelled_hex(digits: Seq<char>)
    requires
        forall|i: int|
            0 <= i < digits.len() ==> '0' <= #[trigger] digits[i] <= '9' || 'a' <= digits[i] <= 'f'
                || 'A' <= digits[i] <= 'F',
    ensures
        hex_number(digits) == spelled_hex(digits),
        all_hex(digits),
    decreases digits.len(),
{
    if digits.len() > 0 {
        let init = digits.drop_last();
        assert forall|i: int| 0 <= i < init.len() implies '0' <= #[trigger] init[i] <= '9' || 'a'
            <= init[i] <= 'f' || 'A' <= init[i] <= 'F' by {
            assert(init[i] == digits[i]);
        }
        lemma_spelled_hex(init);
        let last = digits[digits.len() - 1];
        assert('0' <= last <= '9' || 'a' <= last <= 'f' || 'A' <= last <= 'F');
    }
}

/// A word is spelled by hexadecimal digits, after `0x` or nothing and `+` or
/// nothing; what is above 0xFFFF is refused.
pub proof fn lemma_word_spelled(prefix: Seq<char>, plus: Seq<char>, digits: Seq<char>)
    requires
        prefix == Seq::<char>::empty() || prefix == seq!['0', 'x'] || prefix == seq!['0', 'X'],
        plus == Seq::<char>::empty() || plus == seq!['+'],
        digits.len() > 0,
        forall|i: int|
            0 <= i < digits.len() ==> '0' <= #[trigger] digits[i] <= '9' || 'a' <= digits[i] <= 'f'
                || 'A' <= digits[i] <= 'F',
    ensures
        listed_words(prefix + plus + digits) == (if spelled_hex(digits) <= 0xFFFF {
            Ok::<Seq<u16>, Seq<char>>(seq![spelled_hex(digits) as u16])
        } else {
            Err("无效的十六进制 '"@ + (prefix + plus + digits) + seq!['\''])
        }),
{
    let t = prefix + plus + digits;
    lemma_spelled_hex(digits);
    let d = digits[0];
    assert('0' <= d <= '9' || 'a' <= d <= 'f' || 'A' <= d <= 'F');
    if digits.len() > 1 {
        let e = digits[1];
        assert('0' <= e <= '9' || 'a' <= e <= 'f' || 'A' <= e <= 'F');
    }
    assert(prefix.len() == 0 || prefix.len() == 2);
    assert(plus.len() == 0 || plus.len() == 1);
    let body = plus + digits;
    if prefix.len() == 2 {
        assert(t[0] == prefix[0] && t[1] == prefix[1]);
        assert(t.skip(2) =~= body);
    } else {
        assert(t =~= body);
        if plus.len() == 0 {
            assert(t =~= digits);
        } else {
            assert(t[0] == plus[0]);
        }
    }
    if plus.len() == 1 {
        assert(body[0] == plus[0]);
        assert(body.skip(1) =~= digits);
    } else {
        assert(body =~= digits);
    }
    assert(hex_body(t) == digits);
    assert forall|i: int| 0 <= i < t.len() implies !is_space(#[trigger] t[i]) by {
        let k = i - prefix.len() - plus.len();
        if k >= 0 {
            assert(t[i] == digits[k]);
        } else if i < prefix.len() {
            assert(t[i] == prefix[i]);
        } else {
            assert(t[i] == plus[i - prefix.len()]);
        }
    }
    lemma_one_token(t);
    let ts = seq![t];
    assert(ts.drop_last() =~= Seq::<Seq<char>>::empty());
    assert(token_words(ts.drop_last()) == Ok::<Seq<u16>, Seq<char>>(Seq::<u16>::empty()));
    let w = spelled_hex(digits) as u16;
    assert(Seq::<u16>::empty().push(w) =~= seq![w]);
}

proof fn lemma_one_token(t: Seq<char>)
    requires
        t.len() > 0,
        forall|i: int| 0 <= i < t.len() ==> !is_space(#[trigger] t[i]),
    ensures
        tokens(t) == seq![t],
{
    lemma_token_len(t, t.len());
    assert(t.take(t.len() as int) =~= t);
    assert(t.skip(t.len() as int) =~= Seq::<char>::empty());
    assert(tokens(t.skip(t.len() as int)) =~= Seq::<Seq<char>>::empty());
    assert(tokens(t) =~= seq![t]);
}

proof fn lemma_blank_tokens(s: Seq<char>)
    ensures
        (forall|i: int| 0 <= i < s.len() ==> is_space(#[trigger] s[i])) <==> tokens(s).len() == 0,
    decreases s.len(),
{
    if s.len() > 0 {
        if is_space(s[0]) {
            let t = s.skip(1);
            lemma_blank_tokens(t);
            if tokens(s).len() == 0 {
                assert forall|i: int| 0 <= i < s.len() implies is_space(#[trigger] s[i]) by {
                    if i > 0 {
                        assert(s[i] == t[i - 1]);
                    }
                }
            } else {
                let i = choose|i: int| 0 <= i < t.len() && !is_space(#[trigger] t[i]);
                assert(!is_space(s[i + 1]));
            }
        } else {
            assert(tokens(s).len() > 0);
        }
    }
}

proof fn lemma_no_tokens_trail(s: Seq<char>, c: char)
    requires
        is_space(c),
    ensures
        tokens(s + seq![c]) == tokens(s),
{
    let blank = seq![c];
    assert(blank.skip(1) =~= Seq::<char>::empty());
    assert(tokens(blank.skip(1)) =~= Seq::<Seq<char>>::empty());
    lemma_tokens_concat(s, blank);
    assert(tokens(s) + Seq::<Seq<char>>::empty() =~= tokens(s));
}

/// White space after a list and before it is left out, and an empty list is
/// refused.
pub proof fn lemma_list_trimmed(text: Seq<char>, c: char)
    requires
        is_space(c),
    ensures
        listed_words(text + seq![c]) == listed_words(text),
        listed_words(seq![c] + text) == listed_words(text),
        (forall|i: int| 0 <= i < text.len() ==> is_space(#[trigger] text[i])) ==> listed_words(text)
            == Err::<Seq<u16>, Seq<char>>("请输入十六进制寄存器值"@),
{
    lemma_no_tokens_trail(text, c);
    assert((seq![c] + text).skip(1) =~= text);
    lemma_blank_tokens(text);
}

/// A list of words with white space and one more word behind it is the list with
/// that word at its end; the first word that is refused refuses the list.
pub proof fn lemma_list_extended(text: Seq<char>, c: char, token: Seq<char>, k: int)
    requires
        0 <= k < text.len(),
        !is_space(text[k]),
        is_space(c),
        token.len() > 0,
        forall|i: int| 0 <= i < token.len() ==> !is_space(#[trigger] token[i]),
    ensures
        listed_words(text + seq![c] + token) == (match (listed_words(text), listed_words(token)) {
            (Ok(words), Ok(word)) => Ok::<Seq<u16>, Seq<char>>(words + word),
            (Ok(_), Err(message)) => Err(message),
            (Err(message), _) => Err(message),
        }),
{
    let tail = seq![c] + token;
    let all = text + seq![c] + token;
    assert(all =~= text + tail);
    assert(tail.skip(1) =~= token);
    lemma_one_token(token);
    lemma_tokens_concat(text, tail);
    lemma_blank_tokens(text);
    let ts = tokens(all);
    assert(ts == tokens(text) + seq![token]);
    assert(ts.drop_last() =~= tokens(text));
    assert(ts.last() == token);
    let one = seq![token];
    assert(one.drop_last() =~= Seq::<Seq<char>>::empty());
    assert(token_words(one.drop_last()) == Ok::<Seq<u16>, Seq<char>>(Seq::<u16>::empty()));
    if token_word(token) is Some && token_words(tokens(text)) is Ok {
        let w = token_word(token)->0;
        let words = token_words(tokens(text))->Ok_0;
        assert(Seq::<u16>::empty().push(w) =~= seq![w]);
        assert(words.push(w) =~= words + seq![w]);
    }
}

/// What is taken for one word is one: hexadecimal digits, after `0x` or nothing
/// and `+` or nothing.
pub proof fn lemma_word_spells(token: Seq<char>) -> (parts: (Seq<char>, Seq<char>, Seq<char>))
    requires
        token.len() > 0,
        forall|i: int| 0 <= i < token.len() ==> !is_space(#[trigger] token[i]),
        listed_words(token) is Ok,
    ensures
        token == parts.0 + parts.1 + parts.2,
        parts.0 == Seq::<char>::empty() || parts.0 == seq!['0', 'x'] || parts.0 == seq!['0', 'X'],
        parts.1 == Seq::<char>::empty() || parts.1 == seq!['+'],
        parts.2.len() > 0,
        forall|i: int|
            0 <= i < parts.2.len() ==> '0' <= #[trigger] parts.2[i] <= '9' || 'a' <= parts.2[i]
                <= 'f' || 'A' <= parts.2[i] <= 'F',
{
    lemma_one_token(token);
    let one = seq![token];
    assert(one.drop_last() =~= Seq::<Seq<char>>::empty());
    assert(token_words(one.drop_last()) == Ok::<Seq<u16>, Seq<char>>(Seq::<u16>::empty()));
    assert(token_word(token) is Some);
    let prefixed = token.len() >= 2 && token[0] == '0' && (token[1] == 'x' || token[1] == 'X');
    let (prefix, rest) = if prefixed {
        (token.take(2), token.skip(2))
    } else {
        (seq![], token)
    };
    let (plus, digits) = if rest.len() > 0 && rest[0] == '+' {
        (seq!['+'], rest.skip(1))
    } else {
        (seq![], rest)
    };
    assert(prefixed ==> prefix =~= seq!['0', token[1]]);
    assert(rest =~= plus + digits);
    assert(token =~= prefix + plus + digits);
    assert(hex_body(token) == digits);
    assert forall|i: int| 0 <= i < digits.len() implies '0' <= #[trigger] digits[i] <= '9' || 'a'
        <= digits[i] <= 'f' || 'A' <= digits[i] <= 'F' by {
        assert(is_hex_digit(digits[i]));
    }
    (prefix, plus, digits)
}

} // verus!
