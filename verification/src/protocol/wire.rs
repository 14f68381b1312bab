//! What a client sees on the wire: every byte of a reply and every cell that a
//! request touches, in terms of the bytes of the request.

use vstd::prelude::*;

use super::modbus::{byte_words, cell_bit, packed_bits, packed_byte, unpacked_bits, word_bytes};
use super::session::{frame_length, reply_frame, request_registers, response_registers};
use super::{time_of_day, ContextView, MsgDirection, ServerStats};
use crate::model::byte_order::{high, low, word};
use crate::model::store::{Area, CellView, StoreView};
use crate::numerals::{digit_row, lemma_padded_numeral, spelled};
use crate::text::{dec, dec_padded, hex_bytes};

verus! {

proof fn lemma_high_bit(fc: u8)
    by (bit_vector)
    ensures
        0x80u8 | fc == (if fc < 0x80u8 {
            (fc + 0x80u8) as u8
        } else {
            fc
        }),
{
}

proof fn lemma_eight_bits(
    c0: u8,
    c1: u8,
    c2: u8,
    c3: u8,
    c4: u8,
    c5: u8,
    c6: u8,
    c7: u8,
    b: u8,
)
    by (bit_vector)
    requires
        c0 <= 1,
        c1 <= 1,
        c2 <= 1,
        c3 <= 1,
        c4 <= 1,
        c5 <= 1,
        c6 <= 1,
        c7 <= 1,
        b == c0 + 2 * c1 + 4 * c2 + 8 * c3 + 16 * c4 + 32 * c5 + 64 * c6 + 128 * c7,
    ensures
        (b >> 0u8) & 1 == c0,
        (b >> 1u8) & 1 == c1,
        (b >> 2u8) & 1 == c2,
        (b >> 3u8) & 1 == c3,
        (b >> 4u8) & 1 == c4,
        (b >> 5u8) & 1 == c5,
        (b >> 6u8) & 1 == c6,
        (b >> 7u8) & 1 == c7,
{
}

/// Cell `i` of a packed row is bit `i % 8` of byte `i / 8`; the bits that fill up
/// the last byte are clear.
pub proof fn lemma_packed_bit(values: Seq<u16>, i: int)
    requires
        0 <= i < 8 * ((values.len() + 7) / 8),
    ensures
        packed_bits(values).len() == (values.len() + 7) / 8,
        (packed_bits(values)[i / 8] >> ((i % 8) as u8)) & 1 == (if i < values.len() && values[i]
            != 0 {
            1u8
        } else {
            0u8
        }),
{
    let k = i / 8;
    let b = packed_byte(values, k);
    assert(packed_bits(values)[k] == b);
    lemma_eight_bits(
        cell_bit(values, 8 * k) as u8,
        cell_bit(values, 8 * k + 1) as u8,
        cell_bit(values, 8 * k + 2) as u8,
        cell_bit(values, 8 * k + 3) as u8,
        cell_bit(values, 8 * k + 4) as u8,
        cell_bit(values, 8 * k + 5) as u8,
        cell_bit(values, 8 * k + 6) as u8,
        cell_bit(values, 8 * k + 7) as u8,
        b,
    );
    let j = i % 8;
    assert(i == 8 * k + j);
    assert(j == 0 || j == 1 || j == 2 || j == 3 || j == 4 || j == 5 || j == 6 || j == 7);
}

/// A read of `n` bits from `a` on answers with as many bytes as they take, and
/// bit `i % 8` of data byte `i / 8` is set exactly where cell `a + i` is not
/// zero. Function 0x01 reads the coils, 0x02 the discrete inputs. A quantity of
/// 0 or above 2000 is an illegal value, a range past the end an illegal address,
/// and a read changes nothing but the count of exceptions.
pub proof fn lemma_bits_read(store: StoreView, stats: ServerStats, pdu: Seq<u8>, i: int)
    requires
        store.areas.len() == 4,
        pdu.len() >= 5,
        pdu[0] == 0x01 || pdu[0] == 0x02,
    ensures
        ({
            let cells = store.areas[pdu[0] - 1];
            let a = pdu[1] * 256 + pdu[2];
            let n = pdu[3] * 256 + pdu[4];
            let reply = store.reply_to(pdu);
            &&& store.after_pdu(pdu) == store
            &&& if n == 0 || n > 2000 {
                &&& reply == seq![(0x80 + pdu[0]) as u8, 3u8]
                &&& stats.after_pdu(store, pdu) == (ServerStats {
                    error_responses: stats.error_responses.wrapping_add(1),
                    ..stats
                })
            } else if a + n > cells.len() {
                &&& reply == seq![(0x80 + pdu[0]) as u8, 2u8]
                &&& stats.after_pdu(store, pdu) == (ServerStats {
                    error_responses: stats.error_responses.wrapping_add(1),
                    ..stats
                })
            } else {
                &&& reply.len() == 2 + (n + 7) / 8
                &&& reply[0] == pdu[0]
                &&& reply[1] == (n + 7) / 8
                &&& 0 <= i < n ==> (reply[2 + i / 8] >> ((i % 8) as u8)) & 1 == (if cells[a
                    + i].value != 0 {
                    1u8
                } else {
                    0u8
                })
                &&& n <= i < 8 * ((n + 7) / 8) ==> (reply[2 + i / 8] >> ((i % 8) as u8)) & 1 == 0
                &&& stats.after_pdu(store, pdu) == stats
            }
        }),
{
    lemma_high_bit(pdu[0]);
    let area = if pdu[0] == 0x01 {
        Area::Coils
    } else {
        Area::DiscreteInputs
    };
    let a = pdu[1] * 256 + pdu[2];
    let n = pdu[3] * 256 + pdu[4];
    let data = pdu.drop_first();
    assert(word(data[0], data[1]) == a && word(data[2], data[3]) == n);
    if 0 < n <= 2000 && a + n <= store.cells(area).len() {
        let values = store.values(area, a, n);
        if 0 <= i < 8 * ((n + 7) / 8) {
            lemma_packed_bit(values, i);
            assert(store.reply_to(pdu)[2 + i / 8] == packed_bits(values)[i / 8]);
        }
    }
}

/// A read of `n` registers from `a` on answers with two bytes for each, the high
/// one first. Function 0x03 reads the holding registers, 0x04 the input
/// registers. A quantity of 0 or above 125 is an illegal value, a range past the
/// end an illegal address, and a read changes nothing but the count of
/// exceptions.
pub proof fn lemma_registers_read(store: StoreView, stats: ServerStats, pdu: Seq<u8>, i: int)
    requires
        store.areas.len() == 4,
        pdu.len() >= 5,
        pdu[0] == 0x03 || pdu[0] == 0x04,
    ensures
        ({
            let cells = store.areas[pdu[0] - 1];
            let a = pdu[1] * 256 + pdu[2];
            let n = pdu[3] * 256 + pdu[4];
            let reply = store.reply_to(pdu);
            &&& store.after_pdu(pdu) == store
            &&& if n == 0 || n > 125 {
                &&& reply == seq![(0x80 + pdu[0]) as u8, 3u8]
                &&& stats.after_pdu(store, pdu) == (ServerStats {
                    error_responses: stats.error_responses.wrapping_add(1),
                    ..stats
                })
            } else if a + n > cells.len() {
                &&& reply == seq![(0x80 + pdu[0]) as u8, 2u8]
                &&& stats.after_pdu(store, pdu) == (ServerStats {
                    error_responses: stats.error_responses.wrapping_add(1),
                    ..stats
                })
            } else {
                &&& reply.len() == 2 + 2 * n
                &&& reply[0] == pdu[0]
                &&& reply[1] == 2 * n
                &&& 0 <= i < n ==> reply[2 + 2 * i] * 256 + reply[3 + 2 * i] == cells[a + i].value
                &&& stats.after_pdu(store, pdu) == stats
            }
        }),
{
    lemma_high_bit(pdu[0]);
    let area = if pdu[0] == 0x03 {
        Area::HoldingRegisters
    } else {
        Area::InputRegisters
    };
    let a = pdu[1] * 256 + pdu[2];
    let n = pdu[3] * 256 + pdu[4];
    let data = pdu.drop_first();
    assert(word(data[0], data[1]) == a && word(data[2], data[3]) == n);
    if 0 < n <= 125 && a + n <= store.cells(area).len() {
        let values = store.values(area, a, n);
        let bytes = word_bytes(values);
        let reply = store.reply_to(pdu);
        if 0 <= i < n {
            assert((2 * i) / 2 == i && (2 * i) % 2 == 0);
            assert((2 * i + 1) / 2 == i && (2 * i + 1) % 2 == 1);
            assert(reply[2 + 2 * i] == bytes[2 * i] && reply[3 + 2 * i] == bytes[2 * i + 1]);
            assert(bytes[2 * i] == high(values[i]) && bytes[2 * i + 1] == low(values[i]));
        }
    }
}

/// Function 0x05 switches coil `a` on for 0xFF00 and off for 0, function 0x06
/// stores a word in holding register `a`; either is echoed, signs the cell and
/// leaves every other cell alone. Another value for a coil is an illegal value,
/// an address past the end an illegal address, and both change no cell.
pub proof fn lemma_cell_written(store: StoreView, stats: ServerStats, pdu: Seq<u8>, i: int)
    requires
        store.areas.len() == 4,
        pdu.len() >= 5,
        pdu[0] == 0x05 || pdu[0] == 0x06,
    ensures
        ({
            let t: int = if pdu[0] == 0x05 {
                0
            } else {
                2
            };
            let cells = store.areas[t];
            let a = pdu[1] * 256 + pdu[2];
            let v = pdu[3] * 256 + pdu[4];
            let reply = store.reply_to(pdu);
            let after = store.after_pdu(pdu);
            if pdu[0] == 0x05 && v != 0 && v != 0xFF00 {
                &&& reply == seq![0x85u8, 3u8]
                &&& after == store
                &&& stats.after_pdu(store, pdu) == (ServerStats {
                    error_responses: stats.error_responses.wrapping_add(1),
                    ..stats
                })
            } else if a >= cells.len() {
                &&& reply == seq![(0x80 + pdu[0]) as u8, 2u8]
                &&& after == store
                &&& stats.after_pdu(store, pdu) == (ServerStats {
                    error_responses: stats.error_responses.wrapping_add(1),
                    ..stats
                })
            } else {
                &&& reply == pdu.take(5)
                &&& after.areas.len() == 4
                &&& 0 <= i < 4 && i != t ==> after.areas[i] == store.areas[i]
                &&& after.areas[t].len() == cells.len()
                &&& 0 <= i < cells.len() && i != a ==> after.areas[t][i] == cells[i]
                &&& after.areas[t][a].name == cells[a].name
                &&& after.areas[t][a].writer == "Modbus TCP"@
                &&& after.areas[t][a].value == (if pdu[0] == 0x06 {
                    v
                } else if v == 0xFF00 {
                    1
                } else {
                    0
                })
                &&& after.revision == store.revision || after.revision
                    == store.revision.wrapping_add(1)
                &&& after.areas[t][a] != cells[a] ==> after.revision != store.revision
                &&& stats.after_pdu(store, pdu) == (ServerStats {
                    cells_written: stats.cells_written.wrapping_add(1),
                    ..stats
                })
            }
        }),
{
    lemma_high_bit(pdu[0]);
    let a = pdu[1] * 256 + pdu[2];
    let v = pdu[3] * 256 + pdu[4];
    let data = pdu.drop_first();
    assert(word(data[0], data[1]) == a && word(data[2], data[3]) == v);
    assert(store.reply_to(pdu).len() == 5 ==> store.reply_to(pdu) =~= pdu.take(5));
}

/// Function 0x0F writes coils `a` to `a + n - 1`: coil `a + i` takes bit `i % 8`
/// of data byte `i / 8`. The address and the quantity are echoed, each coil is
/// signed, and no other cell changes.
pub proof fn lemma_bits_written(store: StoreView, stats: ServerStats, pdu: Seq<u8>, i: int)
    requires
        store.areas.len() == 4,
        pdu.len() >= 5,
        pdu[0] == 0x0F,
    ensures
        ({
            let cells = store.areas[0];
            let a = pdu[1] * 256 + pdu[2];
            let n = pdu[3] * 256 + pdu[4];
            let reply = store.reply_to(pdu);
            let after = store.after_pdu(pdu);
            if n == 0 || n > 1968 || pdu.len() < 6 + (n + 7) / 8 || pdu[5] != (n + 7) / 8 {
                &&& reply == seq![0x8Fu8, 3u8]
                &&& after == store
                &&& stats.after_pdu(store, pdu) == (ServerStats {
                    error_responses: stats.error_responses.wrapping_add(1),
                    ..stats
                })
            } else if a + n > cells.len() {
                &&& reply == seq![0x8Fu8, 2u8]
                &&& after == store
                &&& stats.after_pdu(store, pdu) == (ServerStats {
                    error_responses: stats.error_responses.wrapping_add(1),
                    ..stats
                })
            } else {
                &&& reply == pdu.take(5)
                &&& after.areas.len() == 4
                &&& 0 < i < 4 ==> after.areas[i] == store.areas[i]
                &&& after.areas[0].len() == cells.len()
                &&& 0 <= i < cells.len() && !(a <= i < a + n) ==> after.areas[0][i] == cells[i]
                &&& 0 <= i < n ==> after.areas[0][a + i] == (CellView {
                    value: ((pdu[6 + i / 8] >> ((i % 8) as u8)) & 1) as u16,
                    writer: "Modbus TCP"@,
                    name: cells[a + i].name,
                })
                &&& after.revision == store.revision.wrapping_add(1)
                &&& stats.after_pdu(store, pdu) == (ServerStats {
                    cells_written: stats.cells_written.wrapping_add(n as u64),
                    ..stats
                })
            }
        }),
{
    lemma_high_bit(pdu[0]);
    let a = pdu[1] * 256 + pdu[2];
    let n = pdu[3] * 256 + pdu[4];
    let data = pdu.drop_first();
    let reply = store.reply_to(pdu);
    assert(word(data[0], data[1]) == a && word(data[2], data[3]) == n);
    assert(reply.len() == 5 ==> reply =~= pdu.take(5));
    if reply.len() == 5 && 0 <= i < n {
        let bits = unpacked_bits(data.skip(5), n as nat);
        let b = pdu[6 + i / 8];
        let j = (i % 8) as u8;
        assert(data.skip(5)[i / 8] == b);
        assert(((b >> j) & 1) as u16 % 2 == ((b >> j) & 1) as u16) by (bit_vector);
        assert(bits[i] == ((b >> j) & 1) as u16);
        assert(store.overwritten(Area::Coils, a, bits, "Modbus TCP"@)[a + i].value == bits[i]);
    }
}

/// Function 0x10 writes holding registers `a` to `a + n - 1`, each from two data
/// bytes, the high one first. The address and the quantity are echoed, each
/// register is signed, and no other cell changes.
pub proof fn lemma_registers_written(store: StoreView, stats: ServerStats, pdu: Seq<u8>, i: int)
    requires
        store.areas.len() == 4,
        pdu.len() >= 5,
        pdu[0] == 0x10,
    ensures
        ({
            let cells = store.areas[2];
            let a = pdu[1] * 256 + pdu[2];
            let n = pdu[3] * 256 + pdu[4];
            let reply = store.reply_to(pdu);
            let after = store.after_pdu(pdu);
            if n == 0 || n > 123 || pdu.len() < 6 + 2 * n || pdu[5] != 2 * n {
                &&& reply == seq![0x90u8, 3u8]
                &&& after == store
                &&& stats.after_pdu(store, pdu) == (ServerStats {
                    error_responses: stats.error_responses.wrapping_add(1),
                    ..stats
                })
            } else if a + n > cells.len() {
                &&& reply == seq![0x90u8, 2u8]
                &&& after == store
                &&& stats.after_pdu(store, pdu) == (ServerStats {
                    error_responses: stats.error_responses.wrapping_add(1),
                    ..stats
                })
            } else {
                &&& reply == pdu.take(5)
                &&& after.areas.len() == 4
                &&& 0 <= i < 4 && i != 2 ==> after.areas[i] == store.areas[i]
                &&& after.areas[2].len() == cells.len()
                &&& 0 <= i < cells.len() && !(a <= i < a + n) ==> after.areas[2][i] == cells[i]
                &&& 0 <= i < n ==> after.areas[2][a + i] == (CellView {
                    value: (pdu[6 + 2 * i] * 256 + pdu[7 + 2 * i]) as u16,
                    writer: "Modbus TCP"@,
                    name: cells[a + i].name,
                })
                &&& after.revision == store.revision.wrapping_add(1)
                &&& stats.after_pdu(store, pdu) == (ServerStats {
                    cells_written: stats.cells_written.wrapping_add(n as u64),
                    ..stats
                })
            }
        }),
{
    lemma_high_bit(pdu[0]);
    let a = pdu[1] * 256 + pdu[2];
    let n = pdu[3] * 256 + pdu[4];
    let data = pdu.drop_first();
    let reply = store.reply_to(pdu);
    assert(word(data[0], data[1]) == a && word(data[2], data[3]) == n);
    assert(reply.len() == 5 ==> reply =~= pdu.take(5));
    if reply.len() == 5 && 0 <= i < n {
        let words = byte_words(data.skip(5), n as nat);
        assert(data.skip(5)[2 * i] == pdu[6 + 2 * i]);
        assert(data.skip(5)[2 * i + 1] == pdu[7 + 2 * i]);
        assert(words[i] == word(pdu[6 + 2 * i], pdu[7 + 2 * i]));
    }
}

/// A function code other than those served is answered with an illegal
/// function, a served one without its address and second word with an illegal
/// value, and nothing with nothing; no cell changes.
pub proof fn lemma_malformed(store: StoreView, stats: ServerStats, pdu: Seq<u8>)
    requires
        pdu.len() < 5 || pdu[0] == 0 || 0x07 <= pdu[0] <= 0x0E || pdu[0] > 0x10,
    ensures
        store.after_pdu(pdu) == store,
        pdu.len() == 0 ==> store.reply_to(pdu).len() == 0 && stats.after_pdu(store, pdu) == stats,
        pdu.len() > 0 ==> {
            let served = 0x01 <= pdu[0] <= 0x06 || pdu[0] == 0x0F || pdu[0] == 0x10;
            &&& store.reply_to(pdu).len() == 2
            &&& store.reply_to(pdu)[0] == (if pdu[0] < 0x80 {
                pdu[0] + 0x80
            } else {
                pdu[0] as int
            })
            &&& store.reply_to(pdu)[1] == (if served {
                3u8
            } else {
                1u8
            })
            &&& stats.after_pdu(store, pdu) == (ServerStats {
                error_responses: stats.error_responses.wrapping_add(1),
                ..stats
            })
        },
{
    if pdu.len() > 0 {
        lemma_high_bit(pdu[0]);
    }
}

// ---------------------------------------------------------------------------
// Frames and the log
// ---------------------------------------------------------------------------

/// A reply goes out behind the transaction id of the request, protocol id 0, the
/// number of bytes that follow the length field, and the unit id of the request.
pub proof fn lemma_reply_bytes(header: Seq<u8>, response: Seq<u8>, i: int)
    requires
        header.len() == 7,
        response.len() < 0xFFFF,
    ensures
        ({
            let frame = reply_frame(header, response);
            &&& frame.len() == 7 + response.len()
            &&& frame[0] == header[0]
            &&& frame[1] == header[1]
            &&& frame[2] == 0
            &&& frame[3] == 0
            &&& frame[4] * 256 + frame[5] == 1 + response.len()
            &&& frame[6] == header[6]
            &&& 0 <= i < response.len() ==> frame[7 + i] == response[i]
        }),
{
}

/// The length of a request counts the unit id and what follows it.
pub proof fn lemma_length_field(header: Seq<u8>)
    ensures
        frame_length(header) == header[4] * 256 + header[5],
{
}

/// The registers that a request is about: the quantity of a read, one of a
/// single write, half the byte count of a longer one, none of another.
pub proof fn lemma_request_registers(pdu: Seq<u8>)
    ensures
        pdu.len() < 5 ==> request_registers(pdu) == 0,
        pdu.len() >= 5 && 0x01 <= pdu[0] <= 0x04 ==> request_registers(pdu) == pdu[3] * 256
            + pdu[4],
        pdu.len() >= 5 && 0x05 <= pdu[0] <= 0x06 ==> request_registers(pdu) == 1,
        pdu.len() > 5 && 0x0F <= pdu[0] <= 0x10 ==> request_registers(pdu) == pdu[5] as int / 2,
        pdu.len() == 5 && 0x0F <= pdu[0] <= 0x10 ==> request_registers(pdu) == 0,
        pdu.len() >= 5 && (pdu[0] == 0 || 0x07 <= pdu[0] <= 0x0E || pdu[0] > 0x10)
            ==> request_registers(pdu) == 0,
{
}

/// The registers that a response carries: half the byte count of registers read,
/// eight for each byte of bits read, none of another.
pub proof fn lemma_response_registers(response: Seq<u8>)
    ensures
        response.len() < 2 ==> response_registers(response) == 0,
        response.len() >= 2 && 0x01 <= response[0] <= 0x02 ==> response_registers(response) == 8
            * response[1],
        response.len() >= 2 && 0x03 <= response[0] <= 0x04 ==> response_registers(response)
            == response[1] as int / 2,
        response.len() >= 2 && (response[0] == 0 || response[0] > 0x04) ==> response_registers(
            response,
        ) == 0,
{
}

/// A frame of protocol id 0 is answered as its request is served; one of another
/// protocol is refused and served nowhere. Either counts as one request and is
/// logged last, with its function code, its size, its registers, its bytes in
/// hexadecimal and its time; of a full log of 200 the oldest entry goes.
pub proof fn lemma_frame_received(
    ctx: ContextView,
    header: Seq<u8>,
    pdu: Seq<u8>,
    time: Seq<char>,
    ts_ms: u64,
    i: int,
)
    requires
        header.len() == 7,
    ensures
        ({
            let ours = header[2] == 0 && header[3] == 0;
            let after = ctx.received(header, pdu, time, ts_ms);
            let entry = after.log.last();
            let gone: int = if ctx.log.len() >= 200 {
                1
            } else {
                0
            };
            &&& ctx.answer(header, pdu) == (if ours {
                ctx.store.reply_to(pdu)
            } else {
                seq![0x81u8, 0x01u8]
            })
            &&& after.store == (if ours {
                ctx.store.after_pdu(pdu)
            } else {
                ctx.store
            })
            &&& after.stats.total_requests == ctx.stats.total_requests.wrapping_add(1)
            &&& after.stats == (ServerStats {
                total_requests: after.stats.total_requests,
                ..if ours {
                    ctx.stats.after_pdu(ctx.store, pdu)
                } else {
                    ctx.stats
                }
            })
            &&& after.log.len() == ctx.log.len() + 1 - gone
            &&& 0 <= i < ctx.log.len() - gone ==> after.log[i] == ctx.log[i + gone]
            &&& entry.direction == MsgDirection::Received
            &&& entry.function_code == (if pdu.len() > 0 {
                pdu[0]
            } else {
                0
            })
            &&& entry.bytes == 7 + pdu.len()
            &&& entry.registers == request_registers(pdu)
            &&& entry.hex == hex_bytes(header + pdu)
            &&& entry.time == time
            &&& entry.ts_ms == ts_ms
        }),
{
    lemma_high_bit(0x01);
    assert(word(header[2], header[3]) == 0 <==> header[2] == 0 && header[3] == 0);
}

/// A reply is logged last as it goes out, with its own function code or, where
/// it is empty, that of the request; nothing else changes.
pub proof fn lemma_frame_replied(
    ctx: ContextView,
    header: Seq<u8>,
    pdu: Seq<u8>,
    response: Seq<u8>,
    time: Seq<char>,
    ts_ms: u64,
    i: int,
)
    requires
        header.len() == 7,
    ensures
        ({
            let after = ctx.replied(header, pdu, response, time, ts_ms);
            let entry = after.log.last();
            let gone: int = if ctx.log.len() >= 200 {
                1
            } else {
                0
            };
            &&& after.store == ctx.store
            &&& after.stats == ctx.stats
            &&& after.log.len() == ctx.log.len() + 1 - gone
            &&& 0 <= i < ctx.log.len() - gone ==> after.log[i] == ctx.log[i + gone]
            &&& entry.direction == MsgDirection::Sent
            &&& entry.function_code == (if response.len() > 0 {
                response[0]
            } else if pdu.len() > 0 {
                pdu[0]
            } else {
                0
            })
            &&& entry.bytes == 7 + response.len()
            &&& entry.registers == response_registers(response)
            &&& entry.hex == hex_bytes(reply_frame(header, response))
            &&& entry.time == time
            &&& entry.ts_ms == ts_ms
        }),
{
}

/// A time of day is hours, minutes and seconds, two digits each with colons
/// between, that add up to the seconds since midnight.
pub proof fn lemma_time_shown(secs: nat)
    ensures
        ({
            let s = time_of_day(secs);
            let (h, m, t) = (
                spelled(s.subrange(0, 2)),
                spelled(s.subrange(3, 5)),
                spelled(s.subrange(6, 8)),
            );
            &&& s.len() == 8
            &&& s[2] == ':'
            &&& s[5] == ':'
            &&& digit_row(s.subrange(0, 2))
            &&& digit_row(s.subrange(3, 5))
            &&& digit_row(s.subrange(6, 8))
            &&& 0 <= m < 60
            &&& 0 <= t < 60
            &&& 3600 * h + 60 * m + t == secs % 86400
        }),
{
    let s = time_of_day(secs);
    let (h, m, t) = (secs / 3600 % 24, secs / 60 % 60, secs % 60);
    lemma_two_digits(h);
    lemma_two_digits(m);
    lemma_two_digits(t);
    assert(s.subrange(0, 2) =~= dec_padded(h, 2));
    assert(s.subrange(3, 5) =~= dec_padded(m, 2));
    assert(s.subrange(6, 8) =~= dec_padded(t, 2));
    assert(3600 * h + 60 * m + t == secs % 86400) by {
        let (d, x) = (secs / 3600, secs / 60);
        assert(d == x / 60);
    }
}

proof fn lemma_two_digits(n: nat)
    requires
        n < 100,
    ensures
        dec_padded(n, 2).len() == 2,
        digit_row(dec_padded(n, 2)),
        spelled(dec_padded(n, 2)) == n,
{
    lemma_padded_numeral(n, 2);
    reveal_with_fuel(dec, 3);
}

/// Each counter counts what it is for and leaves the others alone.
pub proof fn lemma_counters(stats: ServerStats, n: u64)
    ensures
        stats.with_requests(n) == (ServerStats {
            total_requests: stats.total_requests.wrapping_add(n),
            ..stats
        }),
        stats.with_cells_written(n) == (ServerStats {
            cells_written: stats.cells_written.wrapping_add(n),
            ..stats
        }),
        stats.with_errors(n) == (ServerStats {
            error_responses: stats.error_responses.wrapping_add(n),
            ..stats
        }),
{
}

} // verus!
