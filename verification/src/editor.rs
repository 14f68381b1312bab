//! State of the register edit dialog: bits, hexadecimal words and typed values
//! of one place in the store.

use vstd::prelude::*;
use vstd::utf8::encode_utf8;

use crate::bits::{
    bits_of, bits_to_words, lemma_bits_round_trip, lemma_words_round_trip, words_of, words_to_bits,
};
use crate::hex_list::{listed_words, parse_hex_words};
use crate::model::byte_order::ByteOrder;
use crate::model::store::{Area, RegisterStore, StoreView};
use crate::model::value_type::{
    bytes_to_regs, encode_string_fixed, fixed_string, lemma_fixed_string_round_trip, outcome,
    regs_for, ValueType,
};
use crate::text::{dec, dec_int, hex_words, hex_words_text, int_in, parse_unsigned, push_dec};

verus! {

/// How the edit dialog presents the raw register value.
#[derive(Clone, Copy, PartialEq, Eq, Debug, Structural)]
pub enum ViewMode {
    /// Toggle individual bits with checkboxes.
    Bits,
    /// Edit the raw register words as 16-bit hexadecimal values.
    Hex,
}

impl Default for ViewMode {
    fn default() -> (m: Self)
        ensures
            m == ViewMode::Bits,
    {
        ViewMode::Bits
    }
}

/// Editor state for the register bit/typed/hex edit dialog.
///
/// `bits` holds every bit of the value (LSB of register 0 first); its length is
/// `reg_count * 16`.
pub struct BitEditorState {
    /// Raw bits of the value (`reg_count * 16` entries).
    pub bits: Vec<bool>,
    /// Number of 16-bit registers spanned by the current value.
    pub reg_count: usize,
    /// Address of the first register.
    pub addr: usize,
    /// The area that is edited.
    pub area: Area,
    /// Byte order of values that span several registers.
    pub byte_order: ByteOrder,
    /// The type used to interpret and "auto-fill" the registers.
    pub value_type: ValueType,
    /// `String(N)` byte capacity (only meaningful when `value_type == String`).
    pub string_chars: usize,
    /// Last accepted string for `ValueType::String` (may be many registers).
    pub pending_string: String,
    /// How the raw value is presented.
    pub view_mode: ViewMode,
}

// ---------------------------------------------------------------------------
// Model
// ---------------------------------------------------------------------------

/// What an editor holds.
#[verifier::ext_equal]
pub struct EditorView {
    pub bits: Seq<bool>,
    pub reg_count: nat,
    pub addr: nat,
    pub area: Area,
    pub byte_order: ByteOrder,
    pub value_type: ValueType,
    pub string_chars: nat,
    pub pending_string: Seq<char>,
    pub view_mode: ViewMode,
}

impl View for BitEditorState {
    type V = EditorView;

    open spec fn view(&self) -> EditorView {
        EditorView {
            bits: self.bits@,
            reg_count: self.reg_count as nat,
            addr: self.addr as nat,
            area: self.area,
            byte_order: self.byte_order,
            value_type: self.value_type,
            string_chars: self.string_chars as nat,
            pending_string: self.pending_string@,
            view_mode: self.view_mode,
        }
    }
}

/// Number of registers that a value of a type spans, with `string_chars` bytes
/// for a string.
pub open spec fn span(value_type: ValueType, string_chars: nat) -> nat {
    if value_type is String {
        regs_for(string_chars)
    } else {
        value_type.width()
    }
}

/// The length that the text of a string length stands for: 7 where it is no
/// number, moved into `1..=120`.
pub open spec fn length_from(text: Seq<char>) -> nat {
    let n = match int_in(text, 0, usize::MAX as int) {
        Some(n) => n,
        None => 7,
    };
    if n < 1 {
        1
    } else if n > 120 {
        120
    } else {
        n as nat
    }
}

/// Says that a list has the wrong number of words.
pub open spec fn wrong_count(expected: nat, actual: nat) -> Seq<char> {
    "应输入 "@ + dec(expected) + " 个寄存器字，实际 "@ + dec(actual) + " 个"@
}

/// What an attempt to write does: the editor, the store and the words written or
/// the message.
#[verifier::ext_equal]
pub struct Applied {
    pub editor: EditorView,
    pub store: StoreView,
    pub result: Result<Seq<u16>, Seq<char>>,
}

impl Applied {
    /// A write does what it reports: a refused one leaves the store as it was,
    /// and the words of a successful one are those that the editor shows; the
    /// store holds from then on what its cells keep of them, written by the UI,
    /// with every other cell left alone.
    pub open spec fn faithful(self, before: StoreView) -> bool {
        match self.result {
            Err(_) => self.store == before,
            Ok(words) => {
                let area = self.editor.area;
                let addr = self.editor.addr as int;
                let n = words.len() as int;
                &&& before.in_range(area, addr, n)
                &&& self.store.values(area, addr, n) == self.editor.kept(words)
                &&& forall|i: int|
                    addr <= i < addr + n ==> (#[trigger] self.store.cells(area)[i]).writer
                        == "UI"@
                &&& forall|i: int|
                    0 <= i < before.cells(area).len() && !(addr <= i < addr + n)
                        ==> #[trigger] self.store.cells(area)[i] == before.cells(area)[i]
                &&& self.store.same_elsewhere(before, area)
                &&& self.store.same_layout(before)
                &&& self.editor.words() == words
            },
        }
    }
}

impl EditorView {
    /// The bits are those of whole registers.
    pub open spec fn wf(self) -> bool {
        self.bits.len() == 16 * self.reg_count
    }

    /// The registers that the bits make up.
    pub open spec fn words(self) -> Seq<u16> {
        words_of(self.bits, self.reg_count)
    }

    /// The editor with other register words.
    pub open spec fn with_words(self, words: Seq<u16>) -> EditorView {
        EditorView { bits: bits_of(words), reg_count: words.len(), ..self }
    }

    /// The registers in the store where the value lies, zeros where it would run
    /// past the end.
    pub open spec fn stored(self, store: StoreView) -> Seq<u16> {
        let n = span(self.value_type, self.string_chars);
        if store.in_range(self.area, self.addr as int, n as int) {
            store.values(self.area, self.addr as int, n as int)
        } else {
            Seq::new(n, |i: int| 0u16)
        }
    }

    /// The editor after loading its value.
    pub open spec fn loaded(self, store: StoreView, byte_order: ByteOrder) -> EditorView {
        EditorView { byte_order, ..self.with_words(self.stored(store)) }
    }

    /// The registers that a typed value stands for, or what is wrong with it.
    pub open spec fn typed_words(self, store: StoreView, text: Seq<char>) -> Result<
        Seq<u16>,
        Seq<char>,
    > {
        let len = store.cells(self.area).len();
        let budget = if len > self.addr {
            (len - self.addr) as nat
        } else {
            0
        };
        if self.value_type is String {
            fixed_string(text, self.byte_order, budget, self.string_chars)
        } else {
            self.value_type.encoded(text, self.byte_order, budget)
        }
    }

    /// What a run of cells keeps of the words written to it.
    pub open spec fn kept(self, words: Seq<u16>) -> Seq<u16> {
        words.map_values(|w: u16| self.area.masked(w))
    }

    /// Writing words that the editor holds.
    pub open spec fn stored_words(self, store: StoreView, words: Seq<u16>) -> Applied {
        if store.in_range(self.area, self.addr as int, words.len() as int) {
            Applied {
                editor: self,
                store: store.set_range(self.area, self.addr as int, words, "UI"@),
                result: Ok(words),
            }
        } else {
            Applied { editor: self, store, result: Err("地址超出范围"@) }
        }
    }

    /// Applying a typed value. Once it is written, the view shows what the cells
    /// keep of it.
    pub open spec fn apply_typed(self, store: StoreView, text: Seq<char>) -> Applied {
        if !(self.area is Coils || self.area is HoldingRegisters) {
            Applied { editor: self, store, result: Err("区域只读"@) }
        } else {
            match self.typed_words(store, text) {
                Err(message) => Applied { editor: self, store, result: Err(message) },
                Ok(encoded) => {
                    let editor = if self.value_type is String {
                        EditorView { pending_string: text, ..self }
                    } else {
                        self
                    };
                    let written = editor.with_words(encoded).stored_words(store, encoded);
                    if written.result is Ok {
                        let words = self.kept(encoded);
                        Applied {
                            editor: editor.with_words(words),
                            result: Ok(words),
                            ..written
                        }
                    } else {
                        written
                    }
                },
            }
        }
    }

    /// Applying the raw words.
    pub open spec fn apply_words(self, store: StoreView) -> Applied {
        if !(self.area is Coils || self.area is HoldingRegisters) {
            Applied { editor: self, store, result: Err("区域只读"@) }
        } else if self.reg_count == 0 {
            Applied { editor: self, store, result: Err("没有可写入的数据"@) }
        } else {
            self.stored_words(store, self.words())
        }
    }

    /// Applying a list of words in hexadecimal.
    pub open spec fn apply_hex(self, store: StoreView, text: Seq<char>) -> Applied {
        match listed_words(text) {
            Err(message) => Applied { editor: self, store, result: Err(message) },
            Ok(words) => if words.len() != self.reg_count {
                Applied {
                    editor: self,
                    store,
                    result: Err(wrong_count(self.reg_count, words.len())),
                }
            } else {
                self.with_words(words).apply_words(store)
            },
        }
    }
}

// ---------------------------------------------------------------------------
// Operations
// ---------------------------------------------------------------------------

/// The string length that an input stands for.
pub fn string_length(text: &str) -> (n: usize)
    ensures
        n == length_from(text@),
{
    match parse_unsigned(text, usize::MAX as u64) {
        Some(n) => {
            if n < 1 {
                1
            } else if n > 120 {
                120
            } else {
                n as usize
            }
        },
        None => 7,
    }
}

/// Number of registers that a value of a type spans.
pub fn registers_spanned(value_type: ValueType, string_chars: usize) -> (n: usize)
    ensures
        n == span(value_type, string_chars as nat),
{
    match value_type {
        ValueType::String => bytes_to_regs(string_chars),
        t => match t.fixed_registers() {
            Some(n) => n,
            None => 1,
        },
    }
}

impl BitEditorState {
    /// A zeroed 16-bit value at the start of the holding registers.
    pub fn new() -> (e: Self)
        ensures
            e@ == (EditorView {
                bits: Seq::new(16, |i: int| false),
                reg_count: 1,
                addr: 0,
                area: Area::HoldingRegisters,
                byte_order: ByteOrder::Abcd,
                value_type: ValueType::Uint16,
                string_chars: 7,
                pending_string: seq![],
                view_mode: ViewMode::Bits,
            }),
            e@.wf(),
    {
        let e = BitEditorState {
            bits: vec![false; 16],
            reg_count: 1,
            addr: 0,
            area: Area::HoldingRegisters,
            byte_order: ByteOrder::Abcd,
            value_type: ValueType::Uint16,
            string_chars: 7,
            pending_string: String::new(),
            view_mode: ViewMode::Bits,
        };
        proof {
            assert(e.bits@ =~= Seq::new(16, |i: int| false));
            assert(e.pending_string@ =~= Seq::<char>::empty());
        }
        e
    }

    /// Register count spanned by the current value: a fixed width for numeric
    /// types, or `bytes_to_regs(string_chars)` for strings.
    pub fn regs_for_type(&self) -> (n: usize)
        ensures
            n == span(self.value_type, self.string_chars as nat),
    {
        registers_spanned(self.value_type, self.string_chars)
    }

    /// Byte length of the current value: `string_chars` for strings, otherwise
    /// derived from the register count.
    pub fn byte_len(&self) -> (n: usize)
        requires
            2 * self.reg_count <= usize::MAX,
        ensures
            n == (if self.value_type is String {
                self.string_chars as int
            } else {
                2 * self.reg_count
            }),
    {
        match self.value_type {
            ValueType::String => self.string_chars,
            _ => self.reg_count * 2,
        }
    }

    /// Overwrite the raw bit view from register words: register `k` occupies
    /// bits `[k*16, (k+1)*16)`, bit 0 of each register being its LSB.
    pub fn set_words(&mut self, words: &[u16])
        ensures
            final(self)@ == old(self)@.with_words(words@),
            final(self)@.wf(),
    {
        self.reg_count = words.len();
        self.bits = words_to_bits(words);
        proof {
            assert(self@ =~= old(self)@.with_words(words@));
        }
    }

    /// Load the current value at `addr` into the raw bit view, zeros where it
    /// would run past the end of the area.
    pub fn load(&mut self, store: &RegisterStore, byte_order: ByteOrder) -> (b: bool)
        ensures
            b,
            final(self)@ == old(self)@.loaded(store@, byte_order),
            final(self)@.wf(),
    {
        let ghost before = self@;
        let reg_count: usize = self.regs_for_type();
        let words: Vec<u16> = match store.range(self.area, self.addr, reg_count) {
            Some(words) => words,
            None => vec![0u16; reg_count],
        };
        proof {
            assert(words@ =~= before.stored(store@));
        }
        self.byte_order = byte_order;
        self.set_words(&words);
        proof {
            assert(self@ =~= before.loaded(store@, byte_order));
        }
        true
    }

    /// Turn to another place or type and load its value.
    pub fn open(
        &mut self,
        area: Area,
        addr: usize,
        value_type: ValueType,
        store: &RegisterStore,
        byte_order: ByteOrder,
    )
        ensures
            final(self)@ == (EditorView {
                area,
                addr: addr as nat,
                value_type,
                ..old(self)@
            }).loaded(store@, byte_order),
            final(self)@.wf(),
    {
        self.area = area;
        self.addr = addr;
        self.value_type = value_type;
        self.load(store, byte_order);
    }

    /// Take a new string length from an input. Where it differs, the view is
    /// resized and reloaded; says whether it was.
    pub fn set_string_length(&mut self, text: &str, store: &RegisterStore) -> (changed: bool)
        ensures
            changed == (old(self).value_type is String && old(self).string_chars != length_from(
                text@,
            )),
            final(self)@ == (if changed {
                (EditorView { string_chars: length_from(text@), ..old(self)@ }).loaded(
                    store@,
                    old(self).byte_order,
                )
            } else {
                old(self)@
            }),
    {
        let chars: usize = string_length(text);
        if matches!(self.value_type, ValueType::String) && self.string_chars != chars {
            self.string_chars = chars;
            let byte_order = self.byte_order;
            self.load(store, byte_order);
            true
        } else {
            false
        }
    }

    /// Assemble the raw register words from the current bits.
    pub fn words(&self) -> (words: Vec<u16>)
        ensures
            words@ == self@.words(),
    {
        bits_to_words(&self.bits, self.reg_count)
    }

    /// Set or clear one bit; past the end nothing happens.
    pub fn set_bit(&mut self, ix: usize, on: bool)
        ensures
            final(self)@ == (if ix < old(self).bits@.len() {
                EditorView { bits: old(self).bits@.update(ix as int, on), ..old(self)@ }
            } else {
                old(self)@
            }),
    {
        if ix < self.bits.len() {
            self.bits.set(ix, on);
        }
    }

    /// What a run of cells keeps of the words written to it.
    fn kept_words(&self, words: &Vec<u16>) -> (kept: Vec<u16>)
        ensures
            kept@ == self@.kept(words@),
    {
        let mut kept: Vec<u16> = Vec::new();
        for i in 0..words.len()
            invariant
                kept@ == self@.kept(words@.take(i as int)),
        {
            kept.push(self.area.stored(words[i]));
            assert(self@.kept(words@.take(i + 1)) =~= self@.kept(words@.take(i as int)).push(
                self.area.masked(words@[i as int]),
            ));
        }
        assert(words@.take(words@.len() as int) =~= words@);
        kept
    }

    /// Write words that the editor holds to the store.
    fn store_words(&self, store: &mut RegisterStore, words: Vec<u16>) -> (r: Result<
        Vec<u16>,
        String,
    >)
        ensures
            outcome(r) == self@.stored_words(old(store)@, words@).result,
            final(store)@ == self@.stored_words(old(store)@, words@).store,
    {
        if store.set_range(self.area, self.addr, &words, "UI") {
            Ok(words)
        } else {
            Err("地址超出范围".to_string())
        }
    }

    /// Apply a typed value (number or string) from `text` into the store at
    /// `addr`, then re-sync the raw bit view. On success returns the words that
    /// were written; on parse/range failure returns `Err(message)`.
    pub fn apply_typed(&mut self, store: &mut RegisterStore, text: &str) -> (r: Result<
        Vec<u16>,
        String,
    >)
        ensures
            ({
                let applied = old(self)@.apply_typed(old(store)@, text@);
                &&& outcome(r) == applied.result
                &&& final(self)@ == applied.editor
                &&& final(store)@ == applied.store
            }),
    {
        if !self.area.writable() {
            return Err("区域只读".to_string());
        }
        let len: usize = store.len(self.area);
        let budget: usize = if len > self.addr {
            len - self.addr
        } else {
            0
        };
        let is_string = matches!(self.value_type, ValueType::String);
        let encoded = if is_string {
            encode_string_fixed(text, self.byte_order, budget, self.string_chars)
        } else {
            self.value_type.encode_text(text, self.byte_order, budget)
        };
        let encoded = match encoded {
            Ok(encoded) => encoded,
            Err(message) => {
                return Err(message);
            },
        };
        if is_string {
            self.pending_string = text.to_string();
        }
        self.set_words(&encoded);
        let encoded = match self.store_words(store, encoded) {
            Ok(encoded) => encoded,
            Err(message) => {
                return Err(message);
            },
        };
        let words = self.kept_words(&encoded);
        self.set_words(&words);
        Ok(words)
    }

    /// Write the current raw words (from bit or hex editing) to the store.
    pub fn apply_words(&mut self, store: &mut RegisterStore) -> (r: Result<Vec<u16>, String>)
        ensures
            ({
                let applied = old(self)@.apply_words(old(store)@);
                &&& outcome(r) == applied.result
                &&& final(self)@ == applied.editor
                &&& final(store)@ == applied.store
            }),
    {
        if !self.area.writable() {
            return Err("区域只读".to_string());
        }
        let words = self.words();
        if words.len() == 0 {
            return Err("没有可写入的数据".to_string());
        }
        self.store_words(store, words)
    }

    /// Write a list of register words in hexadecimal to the store. It must have
    /// as many words as the value has registers.
    pub fn apply_hex(&mut self, store: &mut RegisterStore, text: &str) -> (r: Result<
        Vec<u16>,
        String,
    >)
        ensures
            ({
                let applied = old(self)@.apply_hex(old(store)@, text@);
                &&& outcome(r) == applied.result
                &&& final(self)@ == applied.editor
                &&& final(store)@ == applied.store
            }),
    {
        let words = match parse_hex_words(text) {
            Ok(words) => words,
            Err(message) => {
                return Err(message);
            },
        };
        let expected: usize = self.registers();
        if words.len() != expected {
            let mut message = "应输入 ".to_string();
            push_dec(&mut message, expected as u64);
            message.append(" 个寄存器字，实际 ");
            push_dec(&mut message, words.len() as u64);
            message.append(" 个");
            return Err(message);
        }
        self.set_words(&words);
        self.apply_words(store)
    }

    /// Confirm the dialog: write what the current view mode edits.
    pub fn confirm(&mut self, store: &mut RegisterStore, hex: &str) -> (r: Result<Vec<u16>, String>)
        ensures
            ({
                let applied = if old(self).view_mode is Hex {
                    old(self)@.apply_hex(old(store)@, hex@)
                } else {
                    old(self)@.apply_words(old(store)@)
                };
                &&& outcome(r) == applied.result
                &&& final(self)@ == applied.editor
                &&& final(store)@ == applied.store
            }),
    {
        match self.view_mode {
            ViewMode::Hex => self.apply_hex(store, hex),
            ViewMode::Bits => self.apply_words(store),
        }
    }

    /// Human-readable rendering of the value in the store.
    pub fn display_value(&self, store: &RegisterStore) -> (s: String)
        requires
            self.value_type is String || self.value_type.width() == 1 || (self.reg_count
                >= self.value_type.width() && store@.in_range(
                self.area,
                self.addr as int,
                self.reg_count as int,
            )),
        ensures
            s@ == self.value_type.decoded(
                if store@.in_range(self.area, self.addr as int, self.reg_count as int) {
                    store@.values(self.area, self.addr as int, self.reg_count as int)
                } else {
                    seq![]
                },
                self.byte_order,
            ),
    {
        let words: Vec<u16> = match store.range(self.area, self.addr, self.reg_count) {
            Some(words) => words,
            None => Vec::new(),
        };
        proof {
            if !store@.in_range(self.area, self.addr as int, self.reg_count as int) {
                assert(words@ =~= seq![]);
            }
        }
        self.value_type.decode_words(&words, self.byte_order)
    }

    /// Render the current in-memory raw words as a typed string.
    pub fn bits_text(&self) -> (s: String)
        requires
            self.value_type.width() == 1 || self.reg_count >= self.value_type.width(),
        ensures
            s@ == self.value_type.decoded(self@.words(), self.byte_order),
    {
        let words = self.words();
        self.value_type.decode_words(&words, self.byte_order)
    }

    /// Render the current raw words as space-separated 16-bit hex, e.g.
    /// `"1234 5678"`.
    pub fn hex_text(&self) -> (s: String)
        ensures
            s@ == hex_words(self@.words()),
    {
        let words = self.words();
        hex_words_text(&words)
    }

    /// Number of registers to read/write for the current type/dialog view.
    pub fn registers(&self) -> (n: usize)
        ensures
            n == self.reg_count,
    {
        self.reg_count
    }
}

// ---------------------------------------------------------------------------
// Laws
// ---------------------------------------------------------------------------

proof fn lemma_words_stored(editor: EditorView, store: StoreView, words: Seq<u16>)
    requires
        store.wf(),
        editor.words() == words,
    ensures
        editor.stored_words(store, words).faithful(store),
{
    let area = editor.area;
    let addr = editor.addr as int;
    if store.in_range(area, addr, words.len() as int) {
        store.lemma_set_range(area, addr, words, "UI"@);
        let after = store.set_range(area, addr, words, "UI"@);
        store.lemma_with_cells(area, store.overwritten(area, addr, words, "UI"@));
        assert(after.cells(area) == store.overwritten(area, addr, words, "UI"@));
        assert(editor.kept(words) =~= words.map_values(|v: u16| area.masked(v)));
    }
}

impl EditorView {
    /// What is set as words is what the bits make up.
    pub proof fn lemma_set_words_reads_back(self, words: Seq<u16>)
        ensures
            self.with_words(words).words() == words,
            self.with_words(words).wf(),
    {
        lemma_words_round_trip(words);
    }

    /// The words of an edited value give its bits back: changing one bit changes
    /// that bit of the words and no other.
    pub proof fn lemma_bits_of_words(self, ix: int, on: bool)
        requires
            self.wf(),
            0 <= ix < self.bits.len(),
        ensures
            ({
                let edited = EditorView { bits: self.bits.update(ix, on), ..self };
                bits_of(edited.words()) == bits_of(self.words()).update(ix, on)
            }),
    {
        lemma_bits_round_trip(self.bits, self.reg_count);
        lemma_bits_round_trip(self.bits.update(ix, on), self.reg_count);
    }

    /// Whatever is applied, the words that a success reports are those that the
    /// view shows, the store then holds what its cells keep of them, and a refusal
    /// changes no cell. Of a typed value the words reported are those that the
    /// store holds.
    pub proof fn lemma_applied_is_faithful(self, store: StoreView, text: Seq<char>)
        requires
            store.wf(),
        ensures
            self.apply_typed(store, text).faithful(store),
            self.apply_typed(store, text).result matches Ok(words) ==> self.apply_typed(
                store,
                text,
            ).store.values(self.area, self.addr as int, words.len() as int) == words,
            self.apply_words(store).faithful(store),
            self.apply_hex(store, text).faithful(store),
    {
        if self.typed_words(store, text) is Ok {
            let encoded = self.typed_words(store, text)->Ok_0;
            let words = self.kept(encoded);
            self.lemma_set_words_reads_back(encoded);
            self.lemma_set_words_reads_back(words);
            lemma_words_stored(self.with_words(encoded), store, encoded);
            assert(self.with_words(encoded).kept(encoded) =~= words);
            assert(self.with_words(words).kept(words) =~= words);
        }
        lemma_words_stored(self, store, self.words());
        if listed_words(text) is Ok {
            let editor = self.with_words(listed_words(text)->Ok_0);
            lemma_words_stored(editor, store, editor.words());
        }
    }

    /// Loading the place where words were applied gives what its cells keep of
    /// them: of registers, the words themselves.
    pub proof fn lemma_applied_words_load_back(self, store: StoreView)
        requires
            store.wf(),
            self.wf(),
            self.reg_count == span(self.value_type, self.string_chars),
            self.apply_words(store).result is Ok,
        ensures
            ({
                let loaded = self.loaded(self.apply_words(store).store, self.byte_order);
                &&& loaded == self.with_words(self.kept(self.words()))
                &&& self.kept(self.words()) == self.words() ==> loaded == self
                &&& self.area is HoldingRegisters ==> loaded == self
            }),
    {
        let words = self.words();
        let after = self.apply_words(store).store;
        lemma_words_stored(self, store, words);
        assert(self.stored(after) =~= self.kept(words));
        lemma_bits_round_trip(self.bits, self.reg_count);
        if self.area is HoldingRegisters {
            assert(self.kept(words) =~= words);
        }
        assert(self.with_words(words) =~= self);
    }

    /// An integer that is typed in and fits is what the registers then show.
    pub proof fn lemma_typed_integer_is_shown(self, store: StoreView, v: int)
        requires
            store.wf(),
            self.area is HoldingRegisters,
            self.value_type.holds(v),
            self.addr + self.value_type.width() <= store.cells(self.area).len(),
        ensures
            ({
                let applied = self.apply_typed(store, dec_int(v));
                let shown = applied.store.values(
                    self.area,
                    self.addr as int,
                    self.value_type.width() as int,
                );
                &&& applied.result is Ok
                &&& self.value_type.decoded(shown, self.byte_order) == dec_int(v)
            }),
    {
        let budget = (store.cells(self.area).len() - self.addr) as nat;
        self.value_type.lemma_integer_round_trip(v, self.byte_order, budget);
        let words = self.typed_words(store, dec_int(v))->Ok_0;
        assert(self.kept(words) =~= words);
        self.lemma_applied_is_faithful(store, dec_int(v));
    }

    /// A string that is typed in and fits is what the registers then show,
    /// unless it ends in NUL.
    pub proof fn lemma_typed_string_is_shown(self, store: StoreView, text: Seq<char>)
        requires
            store.wf(),
            self.area is HoldingRegisters,
            self.value_type is String,
            self.string_chars > 0,
            encode_utf8(text).len() <= self.string_chars,
            text.len() > 0 ==> text.last() != '\0',
            self.addr + regs_for(self.string_chars) <= store.cells(self.area).len(),
        ensures
            ({
                let applied = self.apply_typed(store, text);
                let shown = applied.store.values(
                    self.area,
                    self.addr as int,
                    regs_for(self.string_chars) as int,
                );
                &&& applied.result is Ok
                &&& self.value_type.decoded(shown, self.byte_order) == text
            }),
    {
        let budget = (store.cells(self.area).len() - self.addr) as nat;
        lemma_fixed_string_round_trip(text, self.byte_order, budget, self.string_chars);
        let words = self.typed_words(store, text)->Ok_0;
        assert(self.kept(words) =~= words);
        self.lemma_applied_is_faithful(store, text);
    }

    /// A value that cannot be applied leaves the store as it was.
    pub proof fn lemma_refused_value_changes_nothing(self, store: StoreView, text: Seq<char>)
        ensures
            self.apply_typed(store, text).result is Err ==> self.apply_typed(store, text).store
                == store,
            self.apply_words(store).result is Err ==> self.apply_words(store).store == store,
            self.apply_hex(store, text).result is Err ==> self.apply_hex(store, text).store == store,
    {
    }

    /// Nothing is written to the read-only areas.
    pub proof fn lemma_read_only_area(self, store: StoreView, text: Seq<char>)
        requires
            self.area is DiscreteInputs || self.area is InputRegisters,
        ensures
            self.apply_typed(store, text).result is Err,
            self.apply_words(store).result is Err,
            self.apply_hex(store, text).result is Err,
    {
    }
}

} // verus!
