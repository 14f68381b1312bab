//! What the frame decoder picks by itself: the type and the byte order.

use vstd::prelude::*;

use crate::bits::lemma_bit_place;
use crate::float::{spells, FloatKind, Reading};
use crate::float_laws::{is_finite, layout, lemma_units, units};
use crate::model::byte_order::ByteOrder;
use crate::model::value_laws::{lemma_shown_strings, lemma_string_lies_in, lies_in};
use crate::model::value_type::{packed_string, signed, ValueType};
use crate::natural::power;
use crate::numerals::lemma_numerals_differ;
use crate::parser::{plausible, plausible_order, printable, range_from, ParserView};
use crate::protocol::frame::parsed_hex;
use crate::text::{dec_int, int_in, is_space, lemma_dec_int_reads_back, trim};

verus! {

// ---------------------------------------------------------------------------
// Byte orders
// ---------------------------------------------------------------------------

/// True when a text is the numeral of a number from 0 to `range`.
pub open spec fn numeral_within(shown: Seq<char>, range: nat) -> bool {
    exists|v: int| 0 <= v <= range && shown == #[trigger] dec_int(v)
}

/// The first of ABCD, CDAB, BADC and DCBA that is good.
pub open spec fn first_good(abcd: bool, cdab: bool, badc: bool, dcba: bool) -> Option<ByteOrder> {
    if abcd {
        Some(ByteOrder::Abcd)
    } else if cdab {
        Some(ByteOrder::Cdab)
    } else if badc {
        Some(ByteOrder::Badc)
    } else if dcba {
        Some(ByteOrder::Dcba)
    } else {
        None
    }
}

proof fn lemma_plausible_integer(t: ValueType, words: Seq<u16>, order: ByteOrder, range: nat)
    requires
        words.len() >= t.width(),
        !(t is Float32 || t is Double || t is String),
    ensures
        plausible(t, words, order, range) == numeral_within(t.decoded(words, order), range),
{
    let half = order.value32(words[0], words[1]);
    let whole = order.value64(words[0], words[1], words[2], words[3]);
    let n: int = match t {
        ValueType::Uint16 => words[0] as int,
        ValueType::Int16 => signed(words[0] as int, 0x1_0000),
        ValueType::Uint32 => half as int,
        ValueType::Int32 => signed(half as int, 0x1_0000_0000),
        ValueType::Uint64 => whole as int,
        _ => signed(whole as int, 0x1_0000_0000_0000_0000),
    };
    let shown = t.decoded(words, order);
    assert(shown == dec_int(n));
    if numeral_within(shown, range) {
        let v = choose|v: int| 0 <= v <= range && shown == #[trigger] dec_int(v);
        lemma_numerals_differ(v, n);
    }
}

/// The byte order matched for an integer is the first of ABCD, CDAB, BADC and
/// DCBA in which the decoder shows a number from 0 to the range; there is none
/// exactly when no order shows one.
pub proof fn lemma_integer_order_matched(t: ValueType, words: Seq<u16>, range: nat)
    requires
        words.len() >= t.width(),
        !(t is Float32 || t is Double || t is String),
    ensures
        plausible_order(t, words, range) == first_good(
            numeral_within(t.decoded(words, ByteOrder::Abcd), range),
            numeral_within(t.decoded(words, ByteOrder::Cdab), range),
            numeral_within(t.decoded(words, ByteOrder::Badc), range),
            numeral_within(t.decoded(words, ByteOrder::Dcba), range),
        ),
{
    lemma_plausible_integer(t, words, ByteOrder::Abcd, range);
    lemma_plausible_integer(t, words, ByteOrder::Cdab, range);
    lemma_plausible_integer(t, words, ByteOrder::Badc, range);
    lemma_plausible_integer(t, words, ByteOrder::Dcba, range);
}

/// Where an order shows a number from 0 to the range, that order or one before it
/// is matched.
pub proof fn lemma_number_in_range_is_matched(
    t: ValueType,
    words: Seq<u16>,
    order: ByteOrder,
    range: nat,
    v: int,
)
    requires
        words.len() >= t.width(),
        !(t is Float32 || t is Double || t is String),
        0 <= v <= range,
        t.decoded(words, order) == dec_int(v),
    ensures
        match plausible_order(t, words, range) {
            Some(ByteOrder::Abcd) => true,
            Some(ByteOrder::Cdab) => !(order is Abcd),
            Some(ByteOrder::Badc) => order is Badc || order is Dcba,
            Some(ByteOrder::Dcba) => order is Dcba,
            None => false,
        },
{
    lemma_plausible_integer(t, words, order, range);
}

/// The order that is matched shows a number from 0 to the range.
pub proof fn lemma_matched_number_is_in_range(t: ValueType, words: Seq<u16>, range: nat) -> (v: int)
    requires
        words.len() >= t.width(),
        !(t is Float32 || t is Double || t is String),
        plausible_order(t, words, range) is Some,
    ensures
        0 <= v <= range,
        t.decoded(words, plausible_order(t, words, range)->0) == dec_int(v),
{
    let order = plausible_order(t, words, range)->0;
    lemma_plausible_integer(t, words, order, range);
    choose|v: int| 0 <= v <= range && t.decoded(words, order) == #[trigger] dec_int(v)
}

/// True for the patterns of the numbers from 0 to `range`. A negative zero is a
/// zero.
pub open spec fn pattern_within(kind: FloatKind, b: nat, range: nat) -> bool {
    let (sign, one, unit) = layout(kind);
    b == sign || (is_finite(kind, b) && units(kind, b) <= range * power(2, unit))
}

/// True when a text shows a floating-point number from 0 to `range`.
pub open spec fn float_within(kind: FloatKind, shown: Seq<char>, range: nat) -> bool {
    exists|b: nat| pattern_within(kind, b, range) && shown == #[trigger] kind.text(b)
}

proof fn lemma_pattern_within(kind: FloatKind, b: nat, range: nat)
    requires
        b < 2 * kind.sign_bit(),
    ensures
        pattern_within(kind, b, range) == kind.within(b, range),
        pattern_within(kind, b, range) ==> kind.finite(b),
{
    lemma_units(kind, b);
    assert(power(10, 0) == 1);
    let m = kind.magnitude(b);
    assert(m * 1 == m);
    let r = range * power(2, kind.half_unit());
    assert(r * 1 == r);
    assert(kind.sign_bit() % kind.sign_bit() == 0);
}

proof fn lemma_text_of_no_number(kind: FloatKind, b: nat)
    requires
        b < 2 * kind.sign_bit(),
        !kind.finite(b),
    ensures
        kind.reading(kind.text(b)) == Reading::NotFinite,
{
    let s = kind.text(b);
    let body = if s.len() > 0 && (s[0] == '-' || s[0] == '+') {
        s.drop_first()
    } else {
        s
    };
    assert(!is_space(s[0]) && !is_space(s.last()));
    assert(trim(s) == s);
    if b % kind.sign_bit() > kind.infinity() {
        assert(body =~= seq!['N', 'a', 'N']);
        assert(spells(body, seq!['n', 'a', 'n']));
    } else {
        assert(body =~= seq!['i', 'n', 'f']);
        assert(spells(body, seq!['i', 'n', 'f']));
    }
}

proof fn lemma_float_shown_within(kind: FloatKind, b: nat, range: nat)
    requires
        b < 2 * kind.sign_bit(),
    ensures
        kind.within(b, range) == float_within(kind, kind.text(b), range),
{
    lemma_pattern_within(kind, b, range);
    if float_within(kind, kind.text(b), range) {
        let c = choose|c: nat| pattern_within(kind, c, range) && kind.text(b) == #[trigger] kind.text(
            c,
        );
        lemma_pattern_within(kind, c, range);
        kind.lemma_text_reads_back(c);
        if kind.finite(b) {
            kind.lemma_text_reads_back(b);
            assert(b as u64 == c as u64);
        } else {
            lemma_text_of_no_number(kind, b);
        }
    }
}

proof fn lemma_plausible_float(t: ValueType, words: Seq<u16>, order: ByteOrder, range: nat)
    requires
        t is Float32 || t is Double,
    ensures
        plausible(t, words, order, range) == float_within(
            if t is Float32 {
                FloatKind::Single
            } else {
                FloatKind::Double
            },
            t.decoded(words, order),
            range,
        ),
{
    if t is Float32 {
        let half = order.value32(words[0], words[1]);
        lemma_float_shown_within(FloatKind::Single, half as nat, range);
    } else {
        let whole = order.value64(words[0], words[1], words[2], words[3]);
        lemma_float_shown_within(FloatKind::Double, whole as nat, range);
    }
}

/// The byte order matched for a floating-point number is the first of ABCD,
/// CDAB, BADC and DCBA in which the decoder shows a number from 0 to the range;
/// there is none exactly when no order shows one.
pub proof fn lemma_float_order_matched(t: ValueType, words: Seq<u16>, range: nat)
    requires
        t is Float32 || t is Double,
    ensures
        ({
            let kind = if t is Float32 {
                FloatKind::Single
            } else {
                FloatKind::Double
            };
            plausible_order(t, words, range) == first_good(
                float_within(kind, t.decoded(words, ByteOrder::Abcd), range),
                float_within(kind, t.decoded(words, ByteOrder::Cdab), range),
                float_within(kind, t.decoded(words, ByteOrder::Badc), range),
                float_within(kind, t.decoded(words, ByteOrder::Dcba), range),
            )
        }),
{
    lemma_plausible_float(t, words, ByteOrder::Abcd, range);
    lemma_plausible_float(t, words, ByteOrder::Cdab, range);
    lemma_plausible_float(t, words, ByteOrder::Badc, range);
    lemma_plausible_float(t, words, ByteOrder::Dcba, range);
}

/// True when registers hold a text of printable ASCII characters.
pub open spec fn holds_printable(words: Seq<u16>, order: ByteOrder) -> bool {
    exists|bytes: Seq<u8>| #[trigger]
        lies_in(bytes, words, order) && bytes.len() > 0 && forall|i: int|
            0 <= i < bytes.len() ==> 0x20 <= #[trigger] bytes[i] <= 0x7E
}

proof fn lemma_plausible_string(words: Seq<u16>, order: ByteOrder, range: nat)
    ensures
        plausible(ValueType::String, words, order, range) == holds_printable(words, order),
{
    let text = packed_string(words, order);
    lemma_string_lies_in(words, order);
    if plausible(ValueType::String, words, order, range) {
        assert forall|i: int| 0 <= i < text.len() implies 0x20 <= #[trigger] text[i] <= 0x7E by {
            assert(printable(text[i]));
        }
    }
    if holds_printable(words, order) {
        let bytes = choose|bytes: Seq<u8>| #[trigger]
            lies_in(bytes, words, order) && bytes.len() > 0 && forall|i: int|
                0 <= i < bytes.len() ==> 0x20 <= #[trigger] bytes[i] <= 0x7E;
        assert(bytes[bytes.len() - 1] >= 0x20);
        lemma_shown_strings(words, order, bytes);
    }
}

/// The byte order matched for a string is the first of ABCD, CDAB, BADC and DCBA
/// in which the registers hold a text of printable ASCII characters, whatever
/// the range; there is none exactly when they hold one in no order.
pub proof fn lemma_string_order_matched(words: Seq<u16>, range: nat)
    ensures
        plausible_order(ValueType::String, words, range) == first_good(
            holds_printable(words, ByteOrder::Abcd),
            holds_printable(words, ByteOrder::Cdab),
            holds_printable(words, ByteOrder::Badc),
            holds_printable(words, ByteOrder::Dcba),
        ),
{
    lemma_plausible_string(words, ByteOrder::Abcd, range);
    lemma_plausible_string(words, ByteOrder::Cdab, range);
    lemma_plausible_string(words, ByteOrder::Badc, range);
    lemma_plausible_string(words, ByteOrder::Dcba, range);
}

/// The range that is typed in is the one that is matched; where none is, it is
/// ten thousand.
pub proof fn lemma_range_typed(text: Seq<char>, n: u64)
    ensures
        range_from(dec_int(n as int)) == n,
        int_in(text, 0, 0xFFFF_FFFF_FFFF_FFFF) is None ==> range_from(text) == 10000,
        int_in(text, 0, 0xFFFF_FFFF_FFFF_FFFF) is Some ==> range_from(text) == int_in(
            text,
            0,
            0xFFFF_FFFF_FFFF_FFFF,
        )->0,
{
    lemma_dec_int_reads_back(n as int, 0, u64::MAX as int);
}

// ---------------------------------------------------------------------------
// Types and words
// ---------------------------------------------------------------------------

/// The number of registers of each type, with `chars` bytes for a string.
pub open spec fn registers_of(t: ValueType, chars: nat) -> nat {
    match t {
        ValueType::Uint16 | ValueType::Int16 => 1,
        ValueType::Uint32 | ValueType::Int32 | ValueType::Float32 => 2,
        ValueType::Uint64 | ValueType::Int64 | ValueType::Double => 4,
        ValueType::String => (chars + 1) / 2,
    }
}

/// The decoder shows as many of the words it is given as its type has, in their
/// order and with zeros for those that are missing; bit `j` of word `k` is
/// number `16 * k + j` of the bits it shows. Nothing else changes.
pub proof fn lemma_words_shown(parser: ParserView, words: Seq<u16>, k: int, j: u16)
    requires
        0 <= k < registers_of(parser.value_type, parser.string_chars),
        j < 16,
    ensures
        ({
            let after = parser.with_data(words);
            &&& after.words.len() == registers_of(parser.value_type, parser.string_chars)
            &&& after.words[k] == (if k < words.len() {
                words[k]
            } else {
                0
            })
            &&& after.bits.len() == 16 * after.words.len()
            &&& after.bits[16 * k + j] == ((after.words[k] >> j) & 1 == 1)
            &&& after.value_type == parser.value_type
            &&& after.byte_order == parser.byte_order
            &&& after.string_chars == parser.string_chars
            &&& after.info == parser.info
            &&& after.error == parser.error
        }),
{
    let after = parser.with_data(words);
    lemma_bit_place(after.words, after.bits, 0, k, j);
}

/// A frame that parses is shown: its words under Int16, Int32 or Int64 where
/// there are one, two or four of them and under the type chosen before
/// otherwise, in the byte order chosen before. One that does not leaves all but
/// its message as it was.
pub proof fn lemma_frame_shown(parser: ParserView, hex: Seq<char>)
    ensures
        ({
            let after = parser.parsed(hex);
            match parsed_hex(hex) {
                Ok(frame) => {
                    let t = if frame.words.len() == 1 {
                        ValueType::Int16
                    } else if frame.words.len() == 2 {
                        ValueType::Int32
                    } else if frame.words.len() == 4 {
                        ValueType::Int64
                    } else {
                        parser.value_type
                    };
                    &&& after.value_type == t
                    &&& after.words == Seq::new(
                        registers_of(t, parser.string_chars),
                        |i: int|
                            if i < frame.words.len() {
                                frame.words[i]
                            } else {
                                0
                            },
                    )
                    &&& after.byte_order == parser.byte_order
                    &&& after.string_chars == parser.string_chars
                    &&& after.info == Some(frame)
                    &&& after.error is None
                },
                Err(message) => after == ParserView { error: Some(message), ..parser },
            }
        }),
{
    if parsed_hex(hex) is Ok {
        let frame = parsed_hex(hex)->Ok_0;
        let after = parser.parsed(hex);
        assert(after.words =~= Seq::new(
            registers_of(after.value_type, parser.string_chars),
            |i: int|
                if i < frame.words.len() {
                    frame.words[i]
                } else {
                    0
                },
        ));
    }
}

/// Under another type the decoder shows the words that it has, cut or filled up
/// with zeros to the new width; the byte order stays.
pub proof fn lemma_type_chosen(parser: ParserView, t: ValueType)
    ensures
        ({
            let after = parser.with_type(t);
            &&& after.value_type == t
            &&& after.words == Seq::new(
                registers_of(t, parser.string_chars),
                |i: int|
                    if i < parser.words.len() {
                        parser.words[i]
                    } else {
                        0
                    },
            )
            &&& after.byte_order == parser.byte_order
            &&& after.string_chars == parser.string_chars
            &&& after.info == parser.info
            &&& after.error == parser.error
        }),
{
    assert(parser.with_type(t).words =~= Seq::new(
        registers_of(t, parser.string_chars),
        |i: int|
            if i < parser.words.len() {
                parser.words[i]
            } else {
                0
            },
    ));
}

} // verus!
