//! State of the frame decoder dialog: the words of a parsed frame under a type
//! and a byte order.

use vstd::prelude::*;

use crate::bits::{
    bits_of, bits_to_words, lemma_bits_round_trip, lemma_words_round_trip, words_of, words_to_bits,
};
use crate::editor::{length_from, registers_spanned, span, string_length};
use crate::float::FloatKind;
use crate::model::byte_order::ByteOrder;
use crate::model::value_type::{packed_string, signed, string_bytes, ValueType};
use crate::protocol::frame::{parse_modbus_hex, parsed_hex, FrameView, ModbusFrameParse};
use crate::text::{hex_words, hex_words_text, int_in, parse_unsigned};

verus! {

/// State for the Modbus hex-parse / decode dialog.
///
/// Purely a viewer: it holds the register words extracted from the frame, lets
/// the user pick a type and byte order, and renders the decoded value plus a
/// bit-wise grid. It never writes to the store.
pub struct ParserState {
    /// The active words used for interpretation (length = `type_word_count()`,
    /// padded/truncated to the type's width).
    pub words: Vec<u16>,
    /// Bit view of `words` (`len * 16` entries), LSB of word 0 first.
    pub bits: Vec<bool>,
    /// The type that the words are decoded as.
    pub value_type: ValueType,
    /// The byte order that the words are decoded in.
    pub byte_order: ByteOrder,
    /// `String(N)` byte capacity (only meaningful for `String`).
    pub string_chars: usize,
    /// Last successful parse result (function code + note), if any.
    pub info: Option<ModbusFrameParse>,
    /// Last parse / decode error message, if any.
    pub error: Option<String>,
}

// ---------------------------------------------------------------------------
// Model
// ---------------------------------------------------------------------------

/// What a parser holds.
#[verifier::ext_equal]
pub struct ParserView {
    pub words: Seq<u16>,
    pub bits: Seq<bool>,
    pub value_type: ValueType,
    pub byte_order: ByteOrder,
    pub string_chars: nat,
    pub info: Option<FrameView>,
    pub error: Option<Seq<char>>,
}

impl View for ParserState {
    type V = ParserView;

    open spec fn view(&self) -> ParserView {
        ParserView {
            words: self.words@,
            bits: self.bits@,
            value_type: self.value_type,
            byte_order: self.byte_order,
            string_chars: self.string_chars as nat,
            info: match self.info {
                Some(frame) => Some(frame@),
                None => None,
            },
            error: match self.error {
                Some(message) => Some(message@),
                None => None,
            },
        }
    }
}

/// `words` cut, or filled up with zeros, to `n`.
pub open spec fn resized(words: Seq<u16>, n: nat) -> Seq<u16> {
    Seq::new(
        n,
        |i: int|
            if i < words.len() {
                words[i]
            } else {
                0
            },
    )
}

/// The type that data of so many words is taken for: integers of 2, 4 and 8
/// bytes; other lengths keep the type.
pub open spec fn type_for(words: nat, current: ValueType) -> ValueType {
    if words == 1 {
        ValueType::Int16
    } else if words == 2 {
        ValueType::Int32
    } else if words == 4 {
        ValueType::Int64
    } else {
        current
    }
}

/// True for the printable ASCII characters.
pub open spec fn printable(b: u8) -> bool {
    0x20 <= b <= 0x7E
}

/// True when the words look sensible in a byte order: a number from 0 to
/// `range`, or a string of printable ASCII characters.
pub open spec fn plausible(
    value_type: ValueType,
    words: Seq<u16>,
    order: ByteOrder,
    range: nat,
) -> bool {
    let half = order.value32(words[0], words[1]);
    let whole = order.value64(words[0], words[1], words[2], words[3]);
    let text = packed_string(words, order);
    match value_type {
        ValueType::Uint16 => words[0] <= range,
        ValueType::Int16 => 0 <= signed(words[0] as int, 0x1_0000) <= range,
        ValueType::Uint32 => half <= range,
        ValueType::Int32 => 0 <= signed(half as int, 0x1_0000_0000) <= range,
        ValueType::Float32 => FloatKind::Single.within(half as nat, range),
        ValueType::Uint64 => whole <= range,
        ValueType::Int64 => 0 <= signed(whole as int, 0x1_0000_0000_0000_0000) <= range,
        ValueType::Double => FloatKind::Double.within(whole as nat, range),
        ValueType::String => text.len() > 0 && forall|i: int|
            0 <= i < text.len() ==> printable(#[trigger] text[i]),
    }
}

/// The first byte order in which the words look sensible.
pub open spec fn plausible_order(value_type: ValueType, words: Seq<u16>, range: nat) -> Option<
    ByteOrder,
> {
    if plausible(value_type, words, ByteOrder::Abcd, range) {
        Some(ByteOrder::Abcd)
    } else if plausible(value_type, words, ByteOrder::Cdab, range) {
        Some(ByteOrder::Cdab)
    } else if plausible(value_type, words, ByteOrder::Badc, range) {
        Some(ByteOrder::Badc)
    } else if plausible(value_type, words, ByteOrder::Dcba, range) {
        Some(ByteOrder::Dcba)
    } else {
        None
    }
}

/// The range that an input stands for: 10000 where it is no number.
pub open spec fn range_from(text: Seq<char>) -> nat {
    match int_in(text, 0, u64::MAX as int) {
        Some(n) => n as nat,
        None => 10000,
    }
}

impl ParserView {
    /// The words have the width of the type, and the bits are theirs.
    pub open spec fn wf(self) -> bool {
        &&& self.words.len() == span(self.value_type, self.string_chars)
        &&& self.bits == bits_of(self.words)
    }

    /// The parser with `words` in the width of its type.
    pub open spec fn with_data(self, words: Seq<u16>) -> ParserView {
        let fitted = resized(words, span(self.value_type, self.string_chars));
        ParserView { words: fitted, bits: bits_of(fitted), ..self }
    }

    /// The parser with another type.
    pub open spec fn with_type(self, value_type: ValueType) -> ParserView {
        ParserView { value_type, ..self }.with_data(self.words)
    }

    /// The parser after a frame was parsed: its words are adopted under the type
    /// that fits their number.
    pub open spec fn parsed(self, hex: Seq<char>) -> ParserView {
        match parsed_hex(hex) {
            Ok(frame) => ParserView { info: Some(frame), error: None, ..self }.matched(),
            Err(message) => ParserView { error: Some(message), ..self },
        }
    }

    /// The parser with the words of the last frame under the type that fits
    /// their number.
    pub open spec fn matched(self) -> ParserView {
        match self.info {
            Some(frame) => ParserView {
                value_type: type_for(frame.words.len(), self.value_type),
                ..self
            }.with_data(frame.words),
            None => self,
        }
    }
}

// ---------------------------------------------------------------------------
// Operations
// ---------------------------------------------------------------------------

/// The range that an input stands for.
pub fn match_range(text: &str) -> (n: u64)
    ensures
        n == range_from(text@),
{
    match parse_unsigned(text, u64::MAX) {
        Some(n) => n,
        None => 10000,
    }
}

/// True when there are bytes and all of them are printable ASCII.
pub fn valid_ansi_bytes(bytes: &Vec<u8>) -> (b: bool)
    ensures
        b == (bytes@.len() > 0 && forall|i: int|
            0 <= i < bytes@.len() ==> printable(#[trigger] bytes@[i])),
{
    let mut i: usize = 0;
    while i < bytes.len()
        invariant
            i <= bytes@.len(),
            forall|k: int| 0 <= k < i ==> printable(#[trigger] bytes@[k]),
        decreases bytes@.len() - i,
    {
        if bytes[i] < 0x20 || bytes[i] > 0x7E {
            proof {
                assert(!printable(bytes@[i as int]));
            }
            return false;
        }
        i = i + 1;
    }
    bytes.len() > 0
}

/// True when the words look sensible in a byte order.
pub fn looks_plausible(
    value_type: ValueType,
    words: &[u16],
    order: ByteOrder,
    range: u64,
) -> (b: bool)
    requires
        words@.len() >= value_type.width(),
    ensures
        b == plausible(value_type, words@, order, range as nat),
{
    match value_type {
        ValueType::Uint16 => words[0] as u64 <= range,
        ValueType::Int16 => words[0] < 0x8000 && words[0] as u64 <= range,
        ValueType::Uint32 => order.decode_u32([words[0], words[1]]) as u64 <= range,
        ValueType::Int32 => {
            let v: u32 = order.decode_u32([words[0], words[1]]);
            v < 0x8000_0000 && v as u64 <= range
        },
        ValueType::Float32 => FloatKind::Single.is_within(
            order.decode_u32([words[0], words[1]]) as u64,
            range,
        ),
        ValueType::Uint64 => order.decode_u64([words[0], words[1], words[2], words[3]]) <= range,
        ValueType::Int64 => {
            let v: u64 = order.decode_u64([words[0], words[1], words[2], words[3]]);
            v < 0x8000_0000_0000_0000 && v <= range
        },
        ValueType::Double => FloatKind::Double.is_within(
            order.decode_u64([words[0], words[1], words[2], words[3]]),
            range,
        ),
        ValueType::String => valid_ansi_bytes(&string_bytes(words, order)),
    }
}

impl ParserState {
    /// One zeroed word, nothing parsed yet.
    pub fn new() -> (p: Self)
        ensures
            p@ == (ParserView {
                words: seq![0u16],
                bits: bits_of(seq![0u16]),
                value_type: ValueType::Uint16,
                byte_order: ByteOrder::Abcd,
                string_chars: 7,
                info: None,
                error: None,
            }),
            p@.wf(),
    {
        let words: Vec<u16> = vec![0u16];
        proof {
            assert(words@ =~= seq![0u16]);
        }
        let bits = words_to_bits(&words);
        ParserState {
            words,
            bits,
            value_type: ValueType::Uint16,
            byte_order: ByteOrder::Abcd,
            string_chars: 7,
            info: None,
            error: None,
        }
    }

    /// Number of 16-bit words the current type spans.
    pub fn type_word_count(&self) -> (n: usize)
        ensures
            n == span(self.value_type, self.string_chars as nat),
    {
        registers_spanned(self.value_type, self.string_chars)
    }

    /// Rebuild the active words (resized to the type's width) and the bit view.
    pub fn refresh(&mut self)
        ensures
            final(self)@ == old(self)@.with_data(old(self).words@),
            final(self)@.wf(),
    {
        let ghost before = self@;
        let n: usize = self.type_word_count();
        let mut words: Vec<u16> = Vec::new();
        let mut i: usize = 0;
        while i < n
            invariant
                i <= n,
                words@ == resized(self.words@, n as nat).take(i as int),
            decreases n - i,
        {
            words.push(
                if i < self.words.len() {
                    self.words[i]
                } else {
                    0
                },
            );
            proof {
                assert(words@ =~= resized(self.words@, n as nat).take(i + 1));
            }
            i = i + 1;
        }
        proof {
            assert(words@ =~= resized(self.words@, n as nat));
        }
        self.bits = words_to_bits(&words);
        self.words = words;
        proof {
            assert(self@ =~= before.with_data(before.words));
        }
    }

    /// Adopt the register words parsed from a frame.
    pub fn set_data(&mut self, words: Vec<u16>)
        ensures
            final(self)@ == old(self)@.with_data(words@),
            final(self)@.wf(),
    {
        let ghost before = self@;
        self.words = words;
        self.refresh();
        proof {
            assert(self@ =~= before.with_data(words@));
        }
    }

    /// Decode the active words under the current type + byte order.
    pub fn decoded(&self) -> (s: String)
        requires
            self.value_type.width() == 1 || self.words@.len() >= self.value_type.width(),
        ensures
            s@ == self.value_type.decoded(self.words@, self.byte_order),
    {
        self.value_type.decode_words(&self.words, self.byte_order)
    }

    /// Space-separated hex of the active words.
    pub fn hex_text(&self) -> (s: String)
        ensures
            s@ == hex_words(self.words@),
    {
        hex_words_text(&self.words)
    }

    /// Set or clear a single bit and rebuild the words from the bit view.
    pub fn toggle_bit(&mut self, ix: usize, on: bool)
        requires
            16 * span(old(self).value_type, old(self).string_chars as nat) <= old(self).bits@.len(),
        ensures
            ({
                let bits = if ix < old(self).bits@.len() {
                    old(self).bits@.update(ix as int, on)
                } else {
                    old(self).bits@
                };
                final(self)@ == (ParserView {
                    bits,
                    words: words_of(
                        bits,
                        span(old(self).value_type, old(self).string_chars as nat),
                    ),
                    ..old(self)@
                })
            }),
    {
        if ix < self.bits.len() {
            self.bits.set(ix, on);
        }
        let n: usize = self.type_word_count();
        self.words = bits_to_words(&self.bits, n);
    }

    /// Decode as another type.
    pub fn set_type(&mut self, vt: ValueType)
        ensures
            final(self)@ == old(self)@.with_type(vt),
            final(self)@.wf(),
    {
        let ghost before = self@;
        self.value_type = vt;
        self.refresh();
        proof {
            assert(self@ =~= before.with_type(vt));
        }
    }

    /// Decode in another byte order.
    pub fn set_byte_order(&mut self, bo: ByteOrder)
        ensures
            final(self)@ == (ParserView { byte_order: bo, ..old(self)@ }),
    {
        self.byte_order = bo;
    }

    /// Change the string length, moved into `1..=120`.
    pub fn set_string_chars(&mut self, chars: usize)
        ensures
            ({
                let n: nat = if chars < 1 {
                    1
                } else if chars > 120 {
                    120
                } else {
                    chars as nat
                };
                final(self)@ == (ParserView { string_chars: n, ..old(self)@ }).with_data(
                    old(self).words@,
                )
            }),
            final(self)@.wf(),
    {
        self.string_chars = if chars < 1 {
            1
        } else if chars > 120 {
            120
        } else {
            chars
        };
        self.refresh();
    }

    /// Take a new string length from an input.
    pub fn set_string_length(&mut self, text: &str)
        ensures
            final(self)@ == (ParserView { string_chars: length_from(text@), ..old(self)@ }).with_data(
                old(self).words@,
            ),
            final(self)@.wf(),
    {
        self.set_string_chars(string_length(text));
    }

    /// Parse a frame and adopt its words, or keep the message.
    pub fn parse(&mut self, hex: &str)
        ensures
            final(self)@ == old(self)@.parsed(hex@),
    {
        let ghost before = self@;
        match parse_modbus_hex(hex) {
            Ok(frame) => {
                self.info = Some(frame);
                self.error = None;
                self.match_type();
            },
            Err(message) => {
                self.error = Some(message);
            },
        }
        proof {
            assert(self@ =~= before.parsed(hex@));
        }
    }

    /// Pick the type that fits the number of words of the last frame, and adopt
    /// its words. Without a frame nothing happens.
    pub fn match_type(&mut self)
        ensures
            final(self)@ == old(self)@.matched(),
    {
        let ghost before = self@;
        let words: Vec<u16> = match &self.info {
            Some(frame) => frame.words.clone(),
            None => {
                return;
            },
        };
        proof {
            assert(words@ =~= before.info->0.words);
        }
        if words.len() == 1 {
            self.value_type = ValueType::Int16;
        } else if words.len() == 2 {
            self.value_type = ValueType::Int32;
        } else if words.len() == 4 {
            self.value_type = ValueType::Int64;
        }
        self.set_data(words);
        proof {
            assert(self@ =~= before.matched());
        }
    }

    /// Pick the first byte order in which the words look sensible; says whether
    /// there is one. Where there is none the byte order stays.
    #[verifier::rlimit(40)]
    pub fn match_byte_order(&mut self, range: u64) -> (found: bool)
        requires
            old(self).words@.len() >= old(self).value_type.width(),
        ensures
            ({
                let order = plausible_order(
                    old(self).value_type,
                    old(self).words@,
                    range as nat,
                );
                &&& found == (order is Some)
                &&& final(self)@ == (if order is Some {
                    ParserView { byte_order: order->0, ..old(self)@ }
                } else {
                    old(self)@
                })
            }),
    {
        let orders = [ByteOrder::Abcd, ByteOrder::Cdab, ByteOrder::Badc, ByteOrder::Dcba];
        let mut i: usize = 0;
        #[verifier::loop_isolation(false)]
        while i < 4
            invariant
                i <= 4,
                orders@ == seq![ByteOrder::Abcd, ByteOrder::Cdab, ByteOrder::Badc, ByteOrder::Dcba],
                self.words@.len() >= self.value_type.width(),
                *self == *old(self),
                forall|k: int|
                    0 <= k < i ==> !plausible(
                        self.value_type,
                        self.words@,
                        #[trigger] orders@[k],
                        range as nat,
                    ),
            decreases 4 - i,
        {
            if looks_plausible(self.value_type, &self.words, orders[i], range) {
                self.byte_order = orders[i];
                proof {
                    assert(i == 0 || i == 1 || i == 2 || i == 3);
                    assert(i > 0 ==> !plausible(
                        self.value_type,
                        self.words@,
                        orders@[0],
                        range as nat,
                    ));
                    assert(i > 1 ==> !plausible(
                        self.value_type,
                        self.words@,
                        orders@[1],
                        range as nat,
                    ));
                    assert(i > 2 ==> !plausible(
                        self.value_type,
                        self.words@,
                        orders@[2],
                        range as nat,
                    ));
                }
                return true;
            }
            i = i + 1;
        }
        proof {
            assert(!plausible(self.value_type, self.words@, orders@[0], range as nat));
            assert(!plausible(self.value_type, self.words@, orders@[1], range as nat));
            assert(!plausible(self.value_type, self.words@, orders@[2], range as nat));
            assert(!plausible(self.value_type, self.words@, orders@[3], range as nat));
        }
        false
    }
}

// ---------------------------------------------------------------------------
// Laws
// ---------------------------------------------------------------------------

impl ParserView {
    /// Toggling a bit keeps the words in the width of the type and the bits
    /// theirs, and toggling it back gives the words back.
    pub proof fn lemma_toggle(self, ix: int, on: bool)
        requires
            self.wf(),
            0 <= ix < self.bits.len(),
        ensures
            ({
                let n = span(self.value_type, self.string_chars);
                let bits = self.bits.update(ix, on);
                let after = ParserView { bits, words: words_of(bits, n), ..self };
                &&& after.wf()
                &&& words_of(after.bits.update(ix, self.bits[ix]), n) == self.words
            }),
    {
        let n = span(self.value_type, self.string_chars);
        let bits = self.bits.update(ix, on);
        lemma_bits_round_trip(bits, n);
        lemma_words_round_trip(self.words);
        assert(bits.update(ix, self.bits[ix]) =~= self.bits);
    }

    /// Parsing keeps the words in the width of the type and the bits theirs; a
    /// frame that cannot be parsed leaves them as they were.
    pub proof fn lemma_parsed(self, hex: Seq<char>)
        requires
            self.wf(),
        ensures
            self.parsed(hex).wf(),
            parsed_hex(hex) is Err ==> self.parsed(hex).words == self.words
                && self.parsed(hex).error == Some(parsed_hex(hex)->Err_0),
            parsed_hex(hex) is Ok ==> self.parsed(hex).info == Some(parsed_hex(hex)->Ok_0)
                && self.parsed(hex).error is None,
    {
    }

    /// A frame of one, two or four words is shown whole.
    pub proof fn lemma_parsed_whole(self, hex: Seq<char>)
        requires
            parsed_hex(hex) is Ok,
            ({
                let n = parsed_hex(hex)->Ok_0.words.len();
                n == 1 || n == 2 || n == 4
            }),
        ensures
            self.parsed(hex).words == parsed_hex(hex)->Ok_0.words,
    {
        assert(self.parsed(hex).words =~= parsed_hex(hex)->Ok_0.words);
    }
}

} // verus!
