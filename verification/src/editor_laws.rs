//! What the edit dialog does to every cell and every bit.

use vstd::prelude::*;

use crate::bits::lemma_bit_place;
use crate::editor::{length_from, Applied, EditorView};
use crate::float::FloatKind;
use crate::float_laws::{is_finite, layout, lemma_units};
use crate::hex_list::{lemma_parse_shown, listed_words};
use crate::model::byte_order::ByteOrder;
use crate::model::store::{Area, CellView, StoreView};
use crate::model::store_laws::{kept_of, place};
use crate::model::value_laws::{lemma_shown_32_bits, lemma_shown_64_bits, lemma_text_of_floats};
use crate::model::value_type::fixed_string;
use crate::parser_laws::registers_of;
use crate::text::{dec, dec_int, hex_words, int_in, lemma_dec_int_reads_back};

verus! {

/// True when `after` is `before` with `words` written by the UI to an area from
/// `addr` on, and with nothing else changed.
pub open spec fn written_by_ui(
    before: StoreView,
    after: StoreView,
    area: Area,
    addr: int,
    words: Seq<u16>,
) -> bool {
    let k = place(area);
    &&& after.areas.len() == 4
    &&& forall|a: int| 0 <= a < 4 && a != k ==> #[trigger] after.areas[a] == before.areas[a]
    &&& after.areas[k].len() == before.areas[k].len()
    &&& forall|i: int|
        0 <= i < before.areas[k].len() ==> #[trigger] after.areas[k][i] == if addr <= i < addr
            + words.len() {
            CellView {
                value: kept_of(area, words[i - addr]),
                writer: "UI"@,
                name: before.areas[k][i].name,
            }
        } else {
            before.areas[k][i]
        }
    &&& after.revision == before.revision.wrapping_add(1)
}

proof fn lemma_range_written(before: StoreView, area: Area, addr: int, words: Seq<u16>)
    requires
        before.areas.len() == 4,
        0 <= addr,
        addr + words.len() <= before.areas[place(area)].len(),
    ensures
        written_by_ui(before, before.set_range(area, addr, words, "UI"@), area, addr, words),
{
}

/// The editor with the bits of `words`, and with all else as in `before`.
pub open spec fn shows(before: EditorView, after: EditorView, words: Seq<u16>) -> bool {
    &&& after.reg_count == words.len()
    &&& after.bits.len() == 16 * words.len()
    &&& forall|k: int, j: u16|
        0 <= k < words.len() && j < 16 ==> #[trigger] after.bits[16 * k + j] == ((words[k] >> j) & 1
            == 1)
    &&& after.words() == words
    &&& after.addr == before.addr
    &&& after.area == before.area
    &&& after.byte_order == before.byte_order
    &&& after.value_type == before.value_type
    &&& after.string_chars == before.string_chars
    &&& after.view_mode == before.view_mode
}

proof fn lemma_shows(before: EditorView, words: Seq<u16>)
    ensures
        shows(before, before.with_words(words), words),
{
    let after = before.with_words(words);
    before.lemma_set_words_reads_back(words);
    assert forall|k: int, j: u16| 0 <= k < words.len() && j < 16 implies #[trigger] after.bits[16
        * k + j] == ((words[k] >> j) & 1 == 1) by {
        lemma_bit_place(words, after.bits, 0, k, j);
    }
}

/// A value typed in is encoded in the editor's own type and byte order, a string
/// in the editor's own length, and written to the cells from the editor's
/// address on. What the cells keep is reported and shown. A value that is
/// refused, or that would run past the end, is written nowhere, and nothing is
/// written to the inputs.
pub proof fn lemma_value_typed(editor: EditorView, store: StoreView, text: Seq<char>)
    requires
        store.areas.len() == 4,
    ensures
        ({
            let cells = store.areas[place(editor.area)];
            let room: nat = if cells.len() > editor.addr {
                (cells.len() - editor.addr) as nat
            } else {
                0
            };
            let encoded = if editor.value_type is String {
                fixed_string(text, editor.byte_order, room, editor.string_chars)
            } else {
                editor.value_type.encoded(text, editor.byte_order, room)
            };
            let applied = editor.apply_typed(store, text);
            if editor.area is DiscreteInputs || editor.area is InputRegisters {
                applied == (Applied { editor, store, result: Err("区域只读"@) })
            } else {
                match encoded {
                    Err(message) => applied == (Applied { editor, store, result: Err(message) }),
                    Ok(words) => {
                        &&& applied.editor.pending_string == if editor.value_type is String {
                            text
                        } else {
                            editor.pending_string
                        }
                        &&& if words.len() == 0 || editor.addr + words.len() > cells.len() {
                            &&& applied.result == Err::<Seq<u16>, Seq<char>>("地址超出范围"@)
                            &&& applied.store == store
                            &&& shows(editor, applied.editor, words)
                        } else {
                            let kept = words.map_values(|w: u16| kept_of(editor.area, w));
                            &&& applied.result == Ok::<Seq<u16>, Seq<char>>(kept)
                            &&& written_by_ui(
                                store,
                                applied.store,
                                editor.area,
                                editor.addr as int,
                                words,
                            )
                            &&& shows(editor, applied.editor, kept)
                        }
                    },
                }
            }
        }),
{
    let typed = editor.typed_words(store, text);
    if typed is Ok {
        let words = typed->Ok_0;
        let kept = words.map_values(|w: u16| kept_of(editor.area, w));
        assert(editor.kept(words) =~= kept);
        lemma_shows(editor, words);
        lemma_shows(editor, kept);
        if editor.addr + words.len() <= store.areas[place(editor.area)].len() {
            lemma_range_written(store, editor.area, editor.addr as int, words);
        }
    }
}

/// A number that was typed in lies in the holding registers from the editor's
/// address on as its type encodes it in the editor's own byte order.
pub proof fn lemma_number_typed(editor: EditorView, store: StoreView, text: Seq<char>, i: int)
    requires
        store.areas.len() == 4,
        editor.area is HoldingRegisters,
        !(editor.value_type is String),
        editor.apply_typed(store, text).result is Ok,
    ensures
        ({
            let after = editor.apply_typed(store, text).store;
            let room = (store.areas[2].len() - editor.addr) as nat;
            &&& editor.value_type.encoded(text, editor.byte_order, room) matches Ok(words)
            &&& editor.addr + words.len() <= store.areas[2].len()
            &&& 0 <= i < words.len() ==> after.areas[2][editor.addr + i].value == words[i]
            &&& editor.apply_typed(store, text).result == Ok::<Seq<u16>, Seq<char>>(words)
        }),
{
    lemma_value_typed(editor, store, text);
    let words = editor.typed_words(store, text)->Ok_0;
    assert(words.map_values(|w: u16| kept_of(editor.area, w)) =~= words);
    if 0 <= i < words.len() {
        let after = editor.apply_typed(store, text).store;
        let k = editor.addr + i;
        assert(after.areas[2][k].value == kept_of(editor.area, words[k - editor.addr]));
    }
}

/// A finite floating-point number typed in as its shortest text is stored in the
/// editor's own byte order, and decoding the registers in that order shows the
/// text again.
pub proof fn lemma_typed_float_is_shown(editor: EditorView, store: StoreView, bits: nat)
    requires
        store.areas.len() == 4,
        editor.area is HoldingRegisters,
        editor.value_type is Float32 || editor.value_type is Double,
        ({
            let kind = if editor.value_type is Float32 {
                FloatKind::Single
            } else {
                FloatKind::Double
            };
            bits < 2 * layout(kind).0 && is_finite(kind, bits % layout(kind).0)
        }),
        editor.addr + registers_of(editor.value_type, 0) <= store.areas[2].len(),
    ensures
        ({
            let (kind, n) = if editor.value_type is Float32 {
                (FloatKind::Single, 2nat)
            } else {
                (FloatKind::Double, 4nat)
            };
            let applied = editor.apply_typed(store, kind.text(bits));
            let stored = Seq::new(
                n,
                |i: int| applied.store.areas[2][editor.addr + i].value,
            );
            &&& applied.result == Ok::<Seq<u16>, Seq<char>>(stored)
            &&& stored == if n == 2 {
                editor.byte_order.words32(bits as u32)
            } else {
                editor.byte_order.words64(bits as u64)
            }
            &&& editor.value_type.decoded(stored, editor.byte_order) == kind.text(bits)
        }),
{
    let (kind, n) = if editor.value_type is Float32 {
        (FloatKind::Single, 2nat)
    } else {
        (FloatKind::Double, 4nat)
    };
    let order = editor.byte_order;
    let text = kind.text(bits);
    let cells = store.areas[2];
    let room = (cells.len() - editor.addr) as nat;
    lemma_units(kind, bits % kind.sign_bit());
    kind.lemma_text_reads_back(bits);
    lemma_text_of_floats(text, order, room);
    let words = if n == 2 {
        order.words32(bits as u32)
    } else {
        order.words64(bits as u64)
    };
    assert(words + Seq::<u16>::empty() =~= words);
    if n == 2 {
        assert((bits as u64) as u32 == bits as u32);
        order.lemma_words32_round_trip(bits as u32);
        lemma_shown_32_bits(bits as u32, order, seq![]);
    } else {
        order.lemma_words64_round_trip(bits as u64);
        lemma_shown_64_bits(bits as u64, order, seq![]);
    }
    assert(words.len() == n);
    lemma_value_typed(editor, store, text);
    let applied = editor.apply_typed(store, text);
    let stored = Seq::new(n, |i: int| applied.store.areas[2][editor.addr + i].value);
    assert(words.map_values(|w: u16| kept_of(editor.area, w)) =~= words);
    assert forall|i: int| 0 <= i < n implies #[trigger] stored[i] == words[i] by {
        let k = editor.addr + i;
        assert(applied.store.areas[2][k].value == kept_of(editor.area, words[k - editor.addr]));
    }
    assert(stored =~= words);
}

/// The bits set in the dialog are written as words, bit `j` of word `k` being
/// number `16 * k + j` of the row, to the cells from the editor's address on;
/// the words are reported and the dialog stays as it is. Nothing is written
/// where there are no words, where they would run past the end, or to the
/// inputs.
pub proof fn lemma_bits_applied(editor: EditorView, store: StoreView, k: int, j: u16)
    requires
        store.areas.len() == 4,
        0 <= k < editor.reg_count,
        j < 16,
    ensures
        ({
            let cells = store.areas[place(editor.area)];
            let applied = editor.apply_words(store);
            let n = editor.reg_count;
            &&& applied.editor == editor
            &&& if editor.area is DiscreteInputs || editor.area is InputRegisters {
                applied.result == Err::<Seq<u16>, Seq<char>>("区域只读"@) && applied.store == store
            } else if editor.addr + n > cells.len() {
                applied.result == Err::<Seq<u16>, Seq<char>>("地址超出范围"@) && applied.store
                    == store
            } else {
                &&& applied.result is Ok
                &&& applied.result->Ok_0.len() == n
                &&& ((applied.result->Ok_0[k] >> j) & 1 == 1) == (16 * k + j < editor.bits.len()
                    && editor.bits[16 * k + j])
                &&& written_by_ui(
                    store,
                    applied.store,
                    editor.area,
                    editor.addr as int,
                    applied.result->Ok_0,
                )
            }
        }),
{
    lemma_bit_place(seq![], editor.bits, editor.reg_count, k, j);
    if editor.addr + editor.reg_count <= store.areas[place(editor.area)].len() {
        lemma_range_written(store, editor.area, editor.addr as int, editor.words());
    }
}

/// Without words there is nothing to write.
pub proof fn lemma_no_bits_applied(editor: EditorView, store: StoreView)
    requires
        editor.reg_count == 0,
        editor.area is Coils || editor.area is HoldingRegisters,
    ensures
        editor.apply_words(store) == (Applied {
            editor,
            store,
            result: Err("没有可写入的数据"@),
        }),
{
}

/// Words listed in hexadecimal are written as they are listed to the cells from
/// the editor's address on, reported and shown. As many are taken as the value
/// has registers, and no other number of them.
pub proof fn lemma_list_applied(editor: EditorView, store: StoreView, text: Seq<char>)
    requires
        store.areas.len() == 4,
        editor.area is Coils || editor.area is HoldingRegisters,
    ensures
        ({
            let applied = editor.apply_hex(store, text);
            match listed_words(text) {
                Err(message) => applied == (Applied { editor, store, result: Err(message) }),
                Ok(words) => if words.len() != editor.reg_count {
                    applied == (Applied {
                        editor,
                        store,
                        result: Err(
                            "应输入 "@ + dec(editor.reg_count) + " 个寄存器字，实际 "@ + dec(
                                words.len(),
                            ) + " 个"@,
                        ),
                    })
                } else {
                    &&& shows(editor, applied.editor, words)
                    &&& applied.editor.pending_string == editor.pending_string
                    &&& words.len() > 0 && editor.addr + words.len() <= store.areas[place(
                        editor.area,
                    )].len() ==> {
                        &&& applied.result == Ok::<Seq<u16>, Seq<char>>(words)
                        &&& written_by_ui(
                            store,
                            applied.store,
                            editor.area,
                            editor.addr as int,
                            words,
                        )
                    }
                    &&& editor.addr + words.len() > store.areas[place(editor.area)].len()
                        && words.len() > 0 ==> {
                        &&& applied.result == Err::<Seq<u16>, Seq<char>>("地址超出范围"@)
                        &&& applied.store == store
                    }
                },
            }
        }),
{
    if listed_words(text) is Ok {
        let words = listed_words(text)->Ok_0;
        lemma_shows(editor, words);
        if editor.addr + words.len() <= store.areas[place(editor.area)].len() {
            lemma_range_written(store, editor.area, editor.addr as int, words);
        }
    }
}

/// The words that the dialog shows in hexadecimal can be written back.
pub proof fn lemma_shown_list_applied(editor: EditorView, store: StoreView, words: Seq<u16>)
    requires
        store.areas.len() == 4,
        editor.area is HoldingRegisters,
        words.len() == editor.reg_count,
        words.len() > 0,
        editor.addr + words.len() <= store.areas[2].len(),
    ensures
        ({
            let applied = editor.apply_hex(store, hex_words(words));
            &&& applied.result == Ok::<Seq<u16>, Seq<char>>(words)
            &&& shows(editor, applied.editor, words)
            &&& forall|i: int|
                0 <= i < words.len() ==> (#[trigger] applied.store.areas[2][editor.addr + i]).value
                    == words[i]
        }),
{
    lemma_parse_shown(words);
    lemma_list_applied(editor, store, hex_words(words));
    let applied = editor.apply_hex(store, hex_words(words));
    assert forall|i: int| 0 <= i < words.len() implies (#[trigger] applied.store.areas[2][editor.addr
        + i]).value == words[i] by {
        let k = editor.addr + i;
        assert(applied.store.areas[2][k].value == kept_of(editor.area, words[k - editor.addr]));
    }
}

/// Loading shows the registers from the editor's address on, as many as its type
/// has, in the byte order asked for; zeros where they would run past the end.
pub proof fn lemma_registers_loaded(editor: EditorView, store: StoreView, order: ByteOrder)
    requires
        store.areas.len() == 4,
    ensures
        ({
            let cells = store.areas[place(editor.area)];
            let n = registers_of(editor.value_type, editor.string_chars);
            let loaded = editor.loaded(store, order);
            let words = Seq::new(
                n,
                |i: int|
                    if editor.addr + n <= cells.len() {
                        cells[editor.addr + i].value
                    } else {
                        0
                    },
            );
            &&& shows(EditorView { byte_order: order, ..editor }, loaded, words)
            &&& loaded.pending_string == editor.pending_string
        }),
{
    let cells = store.areas[place(editor.area)];
    let n = registers_of(editor.value_type, editor.string_chars);
    let words = Seq::new(
        n,
        |i: int|
            if editor.addr + n <= cells.len() {
                cells[editor.addr + i].value
            } else {
                0
            },
    );
    assert(editor.stored(store) =~= words);
    lemma_shows(EditorView { byte_order: order, ..editor }, words);
    assert(editor.loaded(store, order) =~= (EditorView { byte_order: order, ..editor }).with_words(
        words,
    ));
}

/// A string length typed in is moved into 1 to 120; where it is none, it is 7.
pub proof fn lemma_length_typed(text: Seq<char>, n: nat)
    requires
        n <= 0xFFFF,
    ensures
        length_from(dec_int(n as int)) == (if n < 1 {
            1
        } else if n > 120 {
            120
        } else {
            n
        }),
        1 <= length_from(text) <= 120,
        int_in(text, 0, usize::MAX as int) is None ==> length_from(text) == 7,
        int_in(text, 0, usize::MAX as int) matches Some(v) ==> length_from(text) == (if v < 1 {
            1
        } else if v > 120 {
            120
        } else {
            v
        }),
{
    lemma_dec_int_reads_back(n as int, 0, usize::MAX as int);
}

} // verus!
